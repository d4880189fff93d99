//! How an index lies on pages: a metapage, then the image in page-sized chunks.
//!
//! Block 0 holds a magic number, the format version, the image's length and a
//! generation counter. Blocks from 1 on carry the image: the rows without a
//! vector, the graph, and the heap address of every node. Every write replaces
//! the whole image and advances the generation; pages that a smaller image no
//! longer needs are left empty rather than cut off.

pub use super::payload::{decode_index_payload, encode_index, PayloadError, TidPair};

use super::payload::{graph_len, read_graph_len, read_tid_table, table_of};
use super::stored::{
    parse_table, read_unranked_table, unranked_rows, Index, Stored, Unranked,
};
use crate::bytes::{
    from_le, get_le, le, lemma_byte_ranges, lemma_from_le_bound, lemma_le_len, put_le,
};

use crate::hnsw::codec_laws::only_serializations_decode;
use crate::hnsw::format::decode;
use crate::hnsw::graph::Graph;
use crate::hnsw::source::{GraphBytes, HnswDecodeError};
use crate::hnsw::Hnsw;
use crate::text::{decimal, hex, push_decimal, push_hex};
use vstd::prelude::*;
use vstd::slice::slice_subrange;

verus! {

/// Marks block 0 of an index.
pub const META_MAGIC: u32 = 0x4252_4e44;

/// The storage format this build reads and writes.
pub const STORAGE_VERSION: u32 = 3;

/// Bytes a metapage holds.
pub const META_SIZE: usize = 24;

/// The generation a fresh index is written at. Above zero, so that a zeroed page
/// does not read as a valid generation.
pub const FIRST_GENERATION: u64 = 1;

/// First usable byte of a page, right after its standard header.
pub const PAGE_CONTENTS_OFFSET: usize = 24;

/// The shape of an index's fork. How many bytes make a page is the server's
/// choice, made when it was built.
#[derive(Debug, Clone, Copy, PartialEq, Eq, Structural)]
pub struct Fork {
    pub nblocks: u32,
    /// Bytes in a page, header included.
    pub page_size: u16,
}

/// Usable bytes of a page of `page_size` bytes.
pub open spec fn chunk_capacity(page_size: u16) -> nat {
    if page_size <= PAGE_CONTENTS_OFFSET {
        0
    } else {
        (page_size - PAGE_CONTENTS_OFFSET) as nat
    }
}

/// Usable bytes of a page of `page_size` bytes.
pub fn page_chunk_capacity(page_size: u16) -> (r: usize)
    ensures
        r == chunk_capacity(page_size),
{
    if page_size as usize <= PAGE_CONTENTS_OFFSET {
        0
    } else {
        page_size as usize - PAGE_CONTENTS_OFFSET
    }
}

impl Fork {
    /// Usable bytes per page.
    pub open spec fn capacity(self) -> nat {
        chunk_capacity(self.page_size)
    }
}

/// Block whose page lock arbitrates the stored image: shared to read it whole,
/// exclusive to replace it.
pub const IMAGE_LOCK_BLOCK: u32 = 0;

/// The metapage of a payload.
pub open spec fn meta_bytes(blob_len: nat, generation: nat) -> Seq<u8> {
    le(META_MAGIC as nat, 4) + le(STORAGE_VERSION as nat, 4) + le(blob_len, 8) + le(generation, 8)
}

/// The number in some bytes of a metapage.
pub open spec fn meta_field(contents: Seq<u8>, from: int, to: int) -> nat {
    from_le(contents.subrange(from, to))
}

/// Why an index cannot be read from its metapage.
#[derive(Debug, Clone, Copy, PartialEq, Eq, Structural)]
pub enum MetaError {
    /// The index has no pages.
    NoPages,
    /// The metapage is too short for its fields.
    TooShort { len: usize },
    /// The metapage does not start with the magic number.
    BadMagic { magic: u32 },
    /// The index is in another storage format.
    WrongVersion { version: u32 },
    /// The payload length does not fit in memory.
    LengthOutOfRange,
    /// The payload length is more than the pages can hold.
    TooLong { len: usize, nblocks: u32 },
}

impl MetaError {
    /// The text a user sees.
    pub open spec fn text(self) -> Seq<char> {
        match self {
            MetaError::NoPages => "index has no pages (never built?)"@,
            MetaError::TooShort { len } => "metapage too short ("@ + decimal(len as nat)
                + " bytes)"@,
            MetaError::BadMagic { magic } => "bad metapage magic 0x"@ + hex(magic as nat),
            MetaError::WrongVersion { version } => "index was written in storage format "@
                + decimal(version as nat) + ", this build reads "@ + decimal(
                STORAGE_VERSION as nat,
            ) + "; REINDEX to rebuild it"@,
            MetaError::LengthOutOfRange => "metapage blob length out of range"@,
            MetaError::TooLong { len, nblocks } => "metapage declares "@ + decimal(len as nat)
                + " blob bytes but the index has "@ + decimal(nblocks as nat) + " pages"@,
        }
    }

    /// The text a user sees.
    pub fn message(&self) -> (s: String)
        ensures
            s@ == self.text(),
    {
        let mut s = String::new();
        match self {
            MetaError::NoPages => {
                s.append("index has no pages (never built?)");
            },
            MetaError::TooShort { len } => {
                s.append("metapage too short (");
                push_decimal(&mut s, *len as u64);
                s.append(" bytes)");
            },
            MetaError::BadMagic { magic } => {
                s.append("bad metapage magic 0x");
                push_hex(&mut s, *magic);
            },
            MetaError::WrongVersion { version } => {
                s.append("index was written in storage format ");
                push_decimal(&mut s, *version as u64);
                s.append(", this build reads ");
                push_decimal(&mut s, STORAGE_VERSION as u64);
                s.append("; REINDEX to rebuild it");
            },
            MetaError::LengthOutOfRange => {
                s.append("metapage blob length out of range");
            },
            MetaError::TooLong { len, nblocks } => {
                s.append("metapage declares ");
                push_decimal(&mut s, *len as u64);
                s.append(" blob bytes but the index has ");
                push_decimal(&mut s, *nblocks as u64);
                s.append(" pages");
            },
        }
        assert(s@ =~= self.text());
        s
    }
}

/// Payload length and generation, as the metapage of a fork gives them. The
/// version is looked at before the length, so that an index in an older format,
/// whose metapage is shorter, is reported as old.
pub open spec fn meta_of(fork: Fork, contents: Seq<u8>) -> Result<(usize, u64), MetaError> {
    let magic = meta_field(contents, 0, 4) as u32;
    let version = meta_field(contents, 4, 8) as u32;
    let len = meta_field(contents, 8, 16);
    if fork.nblocks == 0 {
        Err(MetaError::NoPages)
    } else if contents.len() < 8 {
        Err(MetaError::TooShort { len: contents.len() as usize })
    } else if magic != META_MAGIC {
        Err(MetaError::BadMagic { magic })
    } else if version != STORAGE_VERSION {
        Err(MetaError::WrongVersion { version })
    } else if contents.len() < META_SIZE {
        Err(MetaError::TooShort { len: contents.len() as usize })
    } else if len > usize::MAX {
        Err(MetaError::LengthOutOfRange)
    } else if len > (fork.nblocks - 1) * fork.capacity() {
        Err(MetaError::TooLong { len: len as usize, nblocks: fork.nblocks })
    } else {
        Ok((len as usize, meta_field(contents, 16, 24) as u64))
    }
}

/// The metapage of a payload.
pub fn encode_meta(blob_len: u64, generation: u64) -> (meta: Vec<u8>)
    ensures
        meta@ == meta_bytes(blob_len as nat, generation as nat),
        meta@.len() == META_SIZE,
{
    let mut meta: Vec<u8> = Vec::new();
    put_le(&mut meta, META_MAGIC as u64, 4);
    put_le(&mut meta, STORAGE_VERSION as u64, 4);
    put_le(&mut meta, blob_len, 8);
    put_le(&mut meta, generation, 8);
    proof {
        broadcast use lemma_le_len;

    }
    assert(meta@ =~= meta_bytes(blob_len as nat, generation as nat));
    meta
}

/// The number in bytes `from..to` of a metapage.
fn read_field(contents: &[u8], from: usize, to: usize) -> (r: u64)
    requires
        from <= to <= contents@.len(),
        to - from <= 8,
    ensures
        r == meta_field(contents@, from as int, to as int),
{
    get_le(slice_subrange(contents, from, to))
}

/// Magic number, version, payload length and generation of a metapage.
pub fn decode_meta(contents: &[u8]) -> (r: (u32, u32, u64, u64))
    requires
        contents@.len() >= META_SIZE,
    ensures
        r.0 == meta_field(contents@, 0, 4),
        r.1 == meta_field(contents@, 4, 8),
        r.2 == meta_field(contents@, 8, 16),
        r.3 == meta_field(contents@, 16, 24),
{
    proof {
        lemma_byte_ranges();
        lemma_from_le_bound(contents@.subrange(0, 4));
        lemma_from_le_bound(contents@.subrange(4, 8));
    }
    (
        read_field(contents, 0, 4) as u32,
        read_field(contents, 4, 8) as u32,
        read_field(contents, 8, 16),
        read_field(contents, 16, 24),
    )
}

/// Check the metapage of a fork and return the payload's length and generation.
/// With no blocks there is no metapage, and `contents` does not matter.
pub fn read_meta(fork: Fork, contents: &[u8]) -> (r: Result<(usize, u64), MetaError>)
    ensures
        r == meta_of(fork, contents@),
{
    if fork.nblocks == 0 {
        return Err(MetaError::NoPages);
    }
    if contents.len() < 8 {
        return Err(MetaError::TooShort { len: contents.len() });
    }
    proof {
        lemma_byte_ranges();
        lemma_from_le_bound(contents@.subrange(0, 4));
        lemma_from_le_bound(contents@.subrange(4, 8));
    }
    let magic: u32 = read_field(contents, 0, 4) as u32;
    if magic != META_MAGIC {
        return Err(MetaError::BadMagic { magic });
    }
    let version: u32 = read_field(contents, 4, 8) as u32;
    if version != STORAGE_VERSION {
        return Err(MetaError::WrongVersion { version });
    }
    if contents.len() < META_SIZE {
        return Err(MetaError::TooShort { len: contents.len() });
    }
    let (_, _, blob_len, generation) = decode_meta(contents);
    if blob_len > usize::MAX as u64 {
        return Err(MetaError::LengthOutOfRange);
    }
    // A length the pages cannot hold would turn one corrupt metapage into a
    // giant allocation.
    let capacity: u64 = page_chunk_capacity(fork.page_size) as u64;
    assert((fork.nblocks - 1) * capacity <= 0x1_0000_0000 * 0x1_0000) by (nonlinear_arith)
        requires
            1 <= fork.nblocks < 0x1_0000_0000,
            0 <= capacity < 0x1_0000,
    ;
    if blob_len > (fork.nblocks as u64 - 1) * capacity {
        return Err(MetaError::TooLong { len: blob_len as usize, nblocks: fork.nblocks });
    }
    Ok((blob_len as usize, generation))
}

/// A page whose used length is impossible.
#[derive(Debug, Clone, Copy, PartialEq, Eq, Structural)]
pub struct CorruptPage {
    pub blkno: u32,
    pub pd_lower: u16,
}

impl CorruptPage {
    /// The text a user sees.
    pub open spec fn text(self) -> Seq<char> {
        "corrupted index page "@ + decimal(self.blkno as nat) + " (pd_lower "@ + decimal(
            self.pd_lower as nat,
        ) + ")"@
    }

    /// The text a user sees.
    pub fn message(&self) -> (s: String)
        ensures
            s@ == self.text(),
    {
        let mut s = String::new();
        s.append("corrupted index page ");
        push_decimal(&mut s, self.blkno as u64);
        s.append(" (pd_lower ");
        push_decimal(&mut s, self.pd_lower as u64);
        s.append(")");
        assert(s@ =~= self.text());
        s
    }
}

/// How many bytes a page of `page_size` bytes holds, from its header's
/// end-of-contents mark.
pub fn used_bytes(blkno: u32, pd_lower: u16, page_size: u16) -> (r: Result<usize, CorruptPage>)
    ensures
        r == (if PAGE_CONTENTS_OFFSET <= pd_lower <= page_size {
            Ok((pd_lower - PAGE_CONTENTS_OFFSET) as usize)
        } else {
            Err(CorruptPage { blkno, pd_lower })
        }),
        r matches Ok(n) ==> n <= chunk_capacity(page_size),
{
    if (pd_lower as usize) < PAGE_CONTENTS_OFFSET || pd_lower > page_size {
        return Err(CorruptPage { blkno, pd_lower });
    }
    Ok(pd_lower as usize - PAGE_CONTENTS_OFFSET)
}

/// The end-of-contents mark of a page of `page_size` bytes with `len` bytes on
/// it, unless they do not fit.
pub fn contents_end(len: usize, page_size: u16) -> (r: Option<u16>)
    ensures
        r == (if len <= chunk_capacity(page_size) {
            Some((PAGE_CONTENTS_OFFSET + len) as u16)
        } else {
            None
        }),
{
    if len > page_chunk_capacity(page_size) {
        return None;
    }
    Some((PAGE_CONTENTS_OFFSET + len) as u16)
}

/// A page's mark gives back how much was put on it, whatever the page size.
pub proof fn page_marks_round_trip(len: nat, page_size: u16)
    requires
        page_size > PAGE_CONTENTS_OFFSET,
        len <= chunk_capacity(page_size),
    ensures
        PAGE_CONTENTS_OFFSET <= (PAGE_CONTENTS_OFFSET + len) as u16 <= page_size,
        (PAGE_CONTENTS_OFFSET + len) as u16 - PAGE_CONTENTS_OFFSET == len,
{
}

/// Pages an image takes: the metapage and enough for the payload, at `capacity`
/// bytes a page.
pub open spec fn pages_needed(blob_len: nat, capacity: nat) -> nat {
    1 + (blob_len + capacity - 1) as nat / capacity
}

/// What block `i` of an image holds. Blocks past the payload are empty.
pub open spec fn page_of(meta: Seq<u8>, blob: Seq<u8>, capacity: nat, i: int) -> Seq<u8> {
    let from = (i - 1) * capacity;
    if i == 0 {
        meta
    } else if from >= blob.len() {
        Seq::empty()
    } else if from + capacity <= blob.len() {
        blob.subrange(from, from + capacity)
    } else {
        blob.skip(from)
    }
}

/// Whether pages have to be logged: an init fork always, since it seeds the main
/// fork after a crash, and the main fork of a permanent relation.
pub fn needs_wal(init_fork: bool, permanent: bool) -> (r: bool)
    ensures
        r == (init_fork || permanent),
{
    init_fork || permanent
}

/// A whole image, ready to be written block by block.
pub struct Image<'a> {
    meta: Vec<u8>,
    blob: &'a [u8],
    capacity: usize,
}

impl<'a> Image<'a> {
    /// What block 0 holds.
    pub closed spec fn meta(&self) -> Seq<u8> {
        self.meta@
    }

    /// The payload.
    pub closed spec fn blob(&self) -> Seq<u8> {
        self.blob@
    }

    /// Payload bytes per page.
    pub closed spec fn capacity(&self) -> nat {
        self.capacity as nat
    }

    /// Pages hold something.
    pub closed spec fn wf(&self) -> bool {
        0 < self.capacity < 0x1_0000
    }

    /// The image of a fresh index, on pages of `page_size` bytes.
    pub fn first(blob: &'a [u8], page_size: u16) -> (r: Self)
        requires
            page_size > PAGE_CONTENTS_OFFSET,
        ensures
            r.wf(),
            r.blob() == blob@,
            r.meta() == meta_bytes(blob@.len(), FIRST_GENERATION as nat),
            r.capacity() == chunk_capacity(page_size),
    {
        Image {
            meta: encode_meta(blob.len() as u64, FIRST_GENERATION),
            blob,
            capacity: page_chunk_capacity(page_size),
        }
    }

    /// The image that replaces the one of `generation`, on pages of `page_size`
    /// bytes.
    pub fn next(blob: &'a [u8], generation: u64, page_size: u16) -> (r: Self)
        requires
            page_size > PAGE_CONTENTS_OFFSET,
        ensures
            r.wf(),
            r.blob() == blob@,
            r.meta() == meta_bytes(blob@.len(), next_generation(generation) as nat),
            r.capacity() == chunk_capacity(page_size),
    {
        let next: u64 = if generation == u64::MAX { 0 } else { generation + 1 };
        Image {
            meta: encode_meta(blob.len() as u64, next),
            blob,
            capacity: page_chunk_capacity(page_size),
        }
    }

    /// Blocks to write over a fork of `existing` blocks: what the image needs,
    /// and any left over from a larger one, which are cleared.
    pub fn blocks(&self, existing: u32) -> (r: u128)
        requires
            self.wf(),
        ensures
            r == (if existing >= pages_needed(self.blob().len(), self.capacity()) {
                existing as nat
            } else {
                pages_needed(self.blob().len(), self.capacity())
            }),
    {
        let len: u128 = self.blob.len() as u128;
        let capacity: u128 = self.capacity as u128;
        let needed: u128 = 1 + (len + capacity - 1) / capacity;
        if existing as u128 >= needed {
            existing as u128
        } else {
            needed
        }
    }

    /// What goes on block `i`.
    pub fn page(&self, i: u32) -> (r: &[u8])
        requires
            self.wf(),
        ensures
            r@ == page_of(self.meta(), self.blob(), self.capacity(), i as int),
    {
        if i == 0 {
            return self.meta.as_slice();
        }
        let len: u64 = self.blob.len() as u64;
        let capacity: u64 = self.capacity as u64;
        assert(0 <= (i - 1) * capacity <= 0x1_0000_0000 * 0x1_0000) by (nonlinear_arith)
            requires
                1 <= i < 0x1_0000_0000,
                0 < capacity < 0x1_0000,
        ;
        let from: u64 = (i as u64 - 1) * capacity;
        if from >= len {
            return &[];
        }
        let to: u64 = if len - from < capacity {
            len
        } else {
            from + capacity
        };
        let r = slice_subrange(self.blob, from as usize, to as usize);
        assert(r@ =~= page_of(self.meta(), self.blob(), self.capacity(), i as int));
        r
    }
}

/// The generation after `generation`; the counter wraps.
pub open spec fn next_generation(generation: u64) -> u64 {
    if generation == u64::MAX {
        0
    } else {
        (generation + 1) as u64
    }
}

/// Which block of a fork of `existing` blocks a page goes to; `None` appends it.
pub fn write_target(blkno: u32, existing: u32) -> (r: Option<u32>)
    ensures
        r == (if blkno < existing {
            Some(blkno)
        } else {
            None
        }),
{
    if blkno < existing {
        Some(blkno)
    } else {
        None
    }
}

/// A page source answers for every block, and always the same way: the image
/// does not change while it is read.
pub open spec fn fetch_ok<F: Fn(u32) -> Vec<u8>>(fetch: F) -> bool {
    &&& forall|blkno: u32| #[trigger] call_requires(fetch, (blkno,))
    &&& forall|blkno: u32, a: Vec<u8>, b: Vec<u8>| #[trigger]
        call_ensures(fetch, (blkno,), a) && #[trigger] call_ensures(fetch, (blkno,), b) ==> a@
            == b@
}

/// What a page source gives for a block.
pub open spec fn page_value<F: Fn(u32) -> Vec<u8>>(fetch: F, blkno: u32) -> Seq<u8> {
    (choose|v: Vec<u8>| call_ensures(fetch, (blkno,), v))@
}

/// The pages a source gives.
pub open spec fn pages_of<F: Fn(u32) -> Vec<u8>>(fetch: F) -> spec_fn(u32) -> Seq<u8> {
    |blkno: u32| page_value(fetch, blkno)
}

/// The contents of blocks `from..to`, end to end.
pub open spec fn contents_of(pages: spec_fn(u32) -> Seq<u8>, from: int, to: int) -> Seq<u8>
    decreases to - from,
{
    if from >= to {
        Seq::empty()
    } else {
        pages(from as u32) + contents_of(pages, from + 1, to)
    }
}

/// As much of `b` as a claim of `n` bytes covers.
pub open spec fn within(b: Seq<u8>, n: nat) -> Seq<u8> {
    if n < b.len() {
        b.take(n as int)
    } else {
        b
    }
}

/// What `b` holds beyond a claim of `n` bytes.
pub open spec fn past(b: Seq<u8>, n: nat) -> Seq<u8> {
    if n < b.len() {
        b.skip(n as int)
    } else {
        Seq::empty()
    }
}

/// The stored payload, delivered a page at a time.
pub struct PageBytes<'a, F: Fn(u32) -> Vec<u8>> {
    fetch: &'a F,
    /// Next block to fetch.
    blkno: u32,
    nblocks: u32,
    page: Vec<u8>,
    pos: usize,
    /// Payload bytes not yet handed out, going by the metapage.
    left: usize,
}

impl<'a, F: Fn(u32) -> Vec<u8>> PageBytes<'a, F> {
    /// Everything still on the pages, whatever was declared.
    pub closed spec fn stored(&self) -> Seq<u8> {
        self.page@.skip(self.pos as int) + contents_of(
            pages_of(*self.fetch),
            self.blkno as int,
            self.nblocks as int,
        )
    }

    /// The source is between two reads.
    pub closed spec fn sound(&self) -> bool {
        &&& fetch_ok(*self.fetch)
        &&& self.pos <= self.page@.len()
    }

    /// Start after the metapage.
    pub fn new(fetch: &'a F, nblocks: u32, blob_len: usize) -> (r: Self)
        requires
            fetch_ok(*fetch),
        ensures
            r.readable(),
            r.stored() == contents_of(pages_of(*fetch), 1, nblocks as int),
            r.declared() == blob_len,
    {
        let r = PageBytes { fetch, blkno: 1, nblocks, page: Vec::new(), pos: 0, left: blob_len };
        assert(r.stored() =~= contents_of(pages_of(*fetch), 1, nblocks as int));
        r
    }

    /// Restrict how many further bytes this source hands out, to fence the graph
    /// off from the address table that follows it.
    pub fn limit(&mut self, bytes: usize)
        requires
            old(self).readable(),
        ensures
            final(self).readable(),
            final(self).stored() == old(self).stored(),
            final(self).declared() == bytes,
    {
        self.left = bytes;
    }

    /// Fetch the next page. Returns `false` once none are left.
    fn advance(&mut self) -> (r: bool)
        requires
            old(self).sound(),
            old(self).pos == old(self).page@.len(),
        ensures
            final(self).sound(),
            final(self).stored() == old(self).stored(),
            final(self).left == old(self).left,
            final(self).nblocks == old(self).nblocks,
            r ==> final(self).blkno == old(self).blkno + 1,
            r ==> final(self).blkno <= final(self).nblocks,
            !r ==> old(self).stored().len() == 0 && final(self).blkno == old(self).blkno,
    {
        let ghost before = self.stored();
        if self.blkno >= self.nblocks {
            assert(before =~= Seq::<u8>::empty());
            return false;
        }
        let page = (self.fetch)(self.blkno);
        assert(call_ensures(
            *self.fetch,
            (self.blkno,),
            choose|v: Vec<u8>| call_ensures(*self.fetch, (self.blkno,), v),
        ));
        assert(page@ == pages_of(*self.fetch)(self.blkno));
        self.page = page;
        self.pos = 0;
        self.blkno = self.blkno + 1;
        assert(self.stored() =~= before);
        true
    }
}

impl<'a, F: Fn(u32) -> Vec<u8>> GraphBytes for PageBytes<'a, F> {
    open spec fn bytes(&self) -> Seq<u8> {
        within(self.stored(), self.declared())
    }

    open spec fn beyond(&self) -> Seq<u8> {
        past(self.stored(), self.declared())
    }

    closed spec fn declared(&self) -> nat {
        self.left as nat
    }

    closed spec fn readable(&self) -> bool {
        self.sound()
    }

    fn read_exact(&mut self, out: &mut [u8]) -> (r: Result<(), HnswDecodeError>) {
        if out.len() > self.left {
            return Err(HnswDecodeError::Truncated);
        }
        let ghost start = self.stored();
        let ghost total = out@.len();
        assert(start.skip(0) =~= start);
        let mut filled: usize = 0;
        while filled < out.len()
            invariant
                self.sound(),
                self.left == old(self).left,
                start == old(self).stored(),
                total == out@.len() == old(out)@.len(),
                total <= self.left,
                filled <= total,
                filled <= start.len(),
                self.stored() == start.skip(filled as int),
                forall|k: int| 0 <= k < filled ==> #[trigger] out@[k] == start[k],
            decreases total - filled, self.nblocks - self.blkno,
        {
            if self.pos == self.page.len() {
                // Empty pages are skipped: a shrunken image leaves some behind.
                if !self.advance() {
                    return Err(HnswDecodeError::Truncated);
                }
            } else {
                // A value may straddle pages: take what this one has.
                let ghost here = self.stored();
                assert(here.len() > 0);
                assert(start.skip(filled as int)[0] == start[filled as int]);
                assert(here[0] == self.page@[self.pos as int]);
                out[filled] = self.page[self.pos];
                self.pos = self.pos + 1;
                filled += 1;
                assert(self.stored() =~= here.skip(1));
                assert(here.skip(1) =~= start.skip(filled as int));
            }
        }
        self.left = self.left - out.len();
        proof {
            assert(out@ =~= start.take(total as int));
            let before = within(start, old(self).declared());
            assert(before.take(total as int) =~= start.take(total as int));
            assert(self.bytes() =~= before.skip(total as int));
            assert(self.beyond() =~= old(self).beyond());
        }
        Ok(())
    }

    fn remaining(&self) -> (r: usize) {
        self.left
    }
}

/// Why an index cannot be loaded.
#[derive(Debug, Clone, Copy, PartialEq, Eq)]
pub enum LoadError {
    Meta(MetaError),
    /// The table of rows without a vector cannot be read.
    Unranked,
    Payload(PayloadError),
    Graph(HnswDecodeError),
    /// The graph and the address table differ in length.
    OutOfStep { nodes: usize, pointers: usize },
}

impl LoadError {
    /// The text a user sees.
    pub open spec fn text(self) -> Seq<char> {
        match self {
            LoadError::Meta(e) => e.text(),
            LoadError::Unranked => "corrupted index: bad table of rows without a vector"@,
            LoadError::Payload(e) => e.text(),
            LoadError::Graph(e) => e.text(),
            LoadError::OutOfStep { nodes, pointers } => "corrupted index: "@ + decimal(
                nodes as nat,
            ) + " graph nodes but "@ + decimal(pointers as nat) + " heap pointers"@,
        }
    }

    /// The text a user sees.
    pub fn message(&self) -> (s: String)
        ensures
            s@ == self.text(),
    {
        match self {
            LoadError::Meta(e) => e.message(),
            LoadError::Unranked => {
                let mut s = String::new();
                s.append("corrupted index: bad table of rows without a vector");
                assert(s@ =~= self.text());
                s
            },
            LoadError::Payload(e) => e.message(),
            LoadError::Graph(e) => e.message(),
            LoadError::OutOfStep { nodes, pointers } => {
                let mut s = String::new();
                s.append("corrupted index: ");
                push_decimal(&mut s, *nodes as u64);
                s.append(" graph nodes but ");
                push_decimal(&mut s, *pointers as u64);
                s.append(" heap pointers");
                assert(s@ =~= self.text());
                s
            },
        }
    }
}

/// The index that pages hold.
pub open spec fn loaded(fork: Fork, pages: spec_fn(u32) -> Seq<u8>) -> Result<
    Stored,
    LoadError,
> {
    match meta_of(fork, pages(0)) {
        Err(e) => Err(LoadError::Meta(e)),
        Ok((blob_len, _)) => {
            let stored = contents_of(pages, 1, fork.nblocks as int);
            let blob = within(stored, blob_len as nat);
            image_index(blob, (blob_len - blob.len()) as nat)
        },
    }
}

/// The index an image holds. `extra` is how many bytes are declared beyond it.
pub open spec fn image_index(blob: Seq<u8>, extra: nat) -> Result<Stored, LoadError> {
    match parse_table(blob, extra) {
        Err(_) => Err(LoadError::Unranked),
        Ok((unranked, rest)) => match payload_index(rest, extra) {
            Err(e) => Err(e),
            Ok((graph, tids)) => Ok(Stored { graph, tids, unranked }),
        },
    }
}

/// The graph and the addresses a payload holds. `extra` is how many bytes are declared beyond it.
pub open spec fn payload_index(blob: Seq<u8>, extra: nat) -> Result<
    (Graph, Seq<TidPair>),
    LoadError,
> {
    match graph_len(blob, extra) {
        Err(e) => Err(LoadError::Payload(e)),
        Ok((n, rest)) => {
            let graph = within(rest, n);
            match decode(graph, (n - graph.len()) as nat) {
                Err(e) => Err(LoadError::Graph(e)),
                Ok(g) => match table_of(rest.skip(n as int), extra) {
                    Err(e) => Err(LoadError::Payload(e)),
                    Ok(tids) => if g.nodes.len() != tids.len() {
                        Err(
                            LoadError::OutOfStep {
                                nodes: g.nodes.len() as usize,
                                pointers: tids.len() as usize,
                            },
                        )
                    } else {
                        Ok((g, tids))
                    },
                },
            }
        },
    }
}

/// An index in memory is the loaded one.
pub open spec fn loaded_as(r: Result<Index, LoadError>, want: Result<Stored, LoadError>) -> bool {
    match (r, want) {
        (Ok(index), Ok(s)) => {
            &&& index.hnsw.wf()
            &&& index@ == s
            &&& s.graph.nodes.len() == s.tids.len()
        },
        (Err(e), Err(f)) => e == f,
        _ => false,
    }
}

/// Load the index from its pages, one at a time. The address table must cover
/// every node: `tids[i]` addresses node `i`.
pub fn load_index<F: Fn(u32) -> Vec<u8>>(fork: Fork, fetch: &F) -> (r: Result<
    Index,
    LoadError,
>)
    requires
        fetch_ok(*fetch),
    ensures
        loaded_as(r, loaded(fork, pages_of(*fetch))),
{
    let ghost pages = pages_of(*fetch);
    if fork.nblocks == 0 {
        return Err(LoadError::Meta(MetaError::NoPages));
    }
    let meta = fetch(0);
    proof {
        assert(call_ensures(
            *fetch,
            (0u32,),
            choose|v: Vec<u8>| call_ensures(*fetch, (0u32,), v),
        ));
        assert(meta@ == pages(0));
    }
    let blob_len: usize = match read_meta(fork, meta.as_slice()) {
        Err(e) => {
            return Err(LoadError::Meta(e));
        },
        Ok((blob_len, _)) => blob_len,
    };
    let mut src = PageBytes::new(fetch, fork.nblocks, blob_len);
    let unranked = match read_unranked_table(&mut src) {
        Err(_) => {
            return Err(LoadError::Unranked);
        },
        Ok(unranked) => unranked,
    };
    load_payload(&mut src, unranked)
}

/// Load the rest of the index from the payload that a page source has come to.
fn load_payload<'a, F: Fn(u32) -> Vec<u8>>(src: &mut PageBytes<'a, F>, unranked: Vec<Unranked>) -> (r:
    Result<Index, LoadError>)
    requires
        old(src).readable(),
    ensures
        loaded_as(
            r,
            match payload_index(
                old(src).bytes(),
                (old(src).declared() - old(src).bytes().len()) as nat,
            ) {
                Err(e) => Err(e),
                Ok((graph, tids)) => Ok(
                    Stored { graph, tids, unranked: unranked_rows(unranked@) },
                ),
            },
        ),
{
    let ghost stored = src.stored();
    let ghost blob = src.bytes();
    let ghost extra = (src.declared() - blob.len()) as nat;
    let n: usize = match read_graph_len(src) {
        Err(e) => {
            return Err(LoadError::Payload(e));
        },
        Ok(n) => n,
    };
    let ghost rest = src.bytes();
    let after: usize = src.remaining() - n;
    // The decoder bounds what it allocates by what the source claims, and the
    // address table is no part of that budget.
    src.limit(n);
    proof {
        assert(src.bytes() =~= within(rest, n as nat));
    }
    let hnsw = match Hnsw::from_graph_bytes(src) {
        Err(e) => {
            return Err(LoadError::Graph(e));
        },
        Ok(hnsw) => hnsw,
    };
    proof {
        let graph = within(rest, n as nat);
        only_serializations_decode(graph, (n - graph.len()) as nat);
        assert(src.bytes() + src.beyond() =~= src.stored());
    }
    src.limit(after);
    proof {
        assert(src.bytes() =~= rest.skip(n as int));
    }
    let tids = match read_tid_table(src) {
        Err(e) => {
            return Err(LoadError::Payload(e));
        },
        Ok(tids) => tids,
    };
    if hnsw.len() != tids.len() {
        return Err(LoadError::OutOfStep { nodes: hnsw.len(), pointers: tids.len() });
    }
    Ok(Index { hnsw, tids, unranked })
}

/// A page's contents start at byte 24, where its header ends. The mark that is set
/// when `len` bytes are put on it reads back as `len`; more than fit get no mark,
/// and a mark inside the header or past the page is corrupt.
pub proof fn pages_start_after_their_header(
    len: usize,
    page_size: u16,
    end: Option<u16>,
    blkno: u32,
    pd_lower: u16,
    used: Result<usize, CorruptPage>,
)
    requires
        call_ensures(contents_end, (len, page_size), end),
        call_ensures(used_bytes, (blkno, pd_lower, page_size), used),
    ensures
        page_size >= 24 ==> (end is Some <==> 24 + len <= page_size),
        end matches Some(e) ==> e == 24 + len,
        24 <= pd_lower <= page_size <==> used is Ok,
        used matches Ok(n) ==> pd_lower == 24 + n,
        used matches Err(e) ==> e.blkno == blkno && e.pd_lower == pd_lower,
        page_size >= 24 && end == Some(pd_lower) ==> used == Ok::<usize, CorruptPage>(len),
{
}

} // verus!
