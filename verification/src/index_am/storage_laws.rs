//! What holds of the stored image as a whole.

use super::payload::{encode_tids, payload, splitting_inverts_framing, TidPair};
use super::storage::{
    contents_of, loaded, meta_bytes, meta_field, meta_of, next_generation, page_of, pages_needed,
    payload_index, within, Fork, LoadError, MetaError, META_MAGIC, STORAGE_VERSION,
};
use super::stored::{
    countable, encode_all_unranked, unranked_tables_read_back, Stored, UnrankedRow,
};
use crate::bytes::{
    bytes_are_little_endian, le, lemma_byte_ranges, lemma_from_le_bound, lemma_from_le_of_le,
    lemma_le_len, lemma_le_of_from_le,
};
use crate::hnsw::codec_laws::decoding_inverts_encoding;
use crate::hnsw::format::{decodable, encode, encode_values};
use crate::hnsw::graph::Graph;
use vstd::arithmetic::power::pow;
use vstd::prelude::*;

verus! {

/// A metapage gives back the length and the generation it was written with, as
/// long as the pages can hold that length.
pub proof fn metapages_round_trip(fork: Fork, blob_len: usize, generation: u64)
    requires
        fork.nblocks > 0,
        blob_len <= (fork.nblocks - 1) * fork.capacity(),
    ensures
        meta_of(fork, meta_bytes(blob_len as nat, generation as nat)) == Ok::<
            (usize, u64),
            MetaError,
        >((blob_len, generation)),
{
    let meta = meta_bytes(blob_len as nat, generation as nat);
    broadcast use lemma_le_len;

    lemma_byte_ranges();
    lemma_from_le_of_le(META_MAGIC as nat, 4);
    lemma_from_le_of_le(STORAGE_VERSION as nat, 4);
    lemma_from_le_of_le(blob_len as nat, 8);
    lemma_from_le_of_le(generation as nat, 8);
    assert(meta.subrange(0, 4) =~= le(META_MAGIC as nat, 4));
    assert(meta.subrange(4, 8) =~= le(STORAGE_VERSION as nat, 4));
    assert(meta.subrange(8, 16) =~= le(blob_len as nat, 8));
    assert(meta.subrange(16, 24) =~= le(generation as nat, 8));
}

/// An index in another storage format is reported as such, however short its
/// metapage.
pub proof fn other_formats_are_named(fork: Fork, contents: Seq<u8>)
    requires
        fork.nblocks > 0,
        contents.len() >= 8,
        meta_field(contents, 0, 4) == META_MAGIC,
        meta_field(contents, 4, 8) != STORAGE_VERSION,
    ensures
        meta_of(fork, contents) == Err::<(usize, u64), MetaError>(
            MetaError::WrongVersion { version: meta_field(contents, 4, 8) as u32 },
        ),
{
    lemma_byte_ranges();
    crate::bytes::lemma_from_le_bound(contents.subrange(4, 8));
}

/// The blocks of a fork hold the image of a payload, whatever they held before.
pub open spec fn image_on(
    pages: spec_fn(u32) -> Seq<u8>,
    fork: Fork,
    blob: Seq<u8>,
    generation: u64,
) -> bool {
    forall|i: u32|
        i < fork.nblocks ==> #[trigger] pages(i) == page_of(
            meta_bytes(blob.len(), generation as nat),
            blob,
            fork.capacity(),
            i as int,
        )
}

/// The chunks from block `k` on make up the payload from there on.
proof fn lemma_chunks(
    pages: spec_fn(u32) -> Seq<u8>,
    fork: Fork,
    blob: Seq<u8>,
    generation: u64,
    k: int,
)
    requires
        image_on(pages, fork, blob, generation),
        1 <= k <= fork.nblocks,
        fork.capacity() > 0,
        blob.len() <= (fork.nblocks - 1) * fork.capacity(),
    ensures
        contents_of(pages, k, fork.nblocks as int) == (if (k - 1) * fork.capacity()
            < blob.len() {
            blob.skip((k - 1) * fork.capacity())
        } else {
            Seq::empty()
        }),
    decreases fork.nblocks - k,
{
    let from = (k - 1) * fork.capacity();
    assert(k * fork.capacity() == from + fork.capacity()) by (nonlinear_arith)
        requires
            from == (k - 1) * fork.capacity(),
    ;
    assert(from >= 0) by (nonlinear_arith)
        requires
            from == (k - 1) * fork.capacity(),
            k >= 1,
    ;
    if k < fork.nblocks {
        lemma_chunks(pages, fork, blob, generation, k + 1);
        let page = pages(k as u32);
        let meta = meta_bytes(blob.len(), generation as nat);
        assert(page == page_of(meta, blob, fork.capacity(), k));
        let rest = contents_of(pages, k + 1, fork.nblocks as int);
        if from < blob.len() {
            assert(page + rest =~= blob.skip(from));
        } else {
            assert(page + rest =~= Seq::<u8>::empty());
        }
    }
}

/// What was written is read back: over any fork, the blocks of an image give the
/// payload's length, its generation and its bytes. Pages left over from a larger
/// image contribute nothing.
pub proof fn images_read_back(
    pages: spec_fn(u32) -> Seq<u8>,
    fork: Fork,
    blob: Seq<u8>,
    generation: u64,
)
    requires
        image_on(pages, fork, blob, generation),
        fork.capacity() > 0,
        blob.len() <= usize::MAX,
        pages_needed(blob.len(), fork.capacity()) <= fork.nblocks,
    ensures
        meta_of(fork, pages(0)) == Ok::<(usize, u64), MetaError>(
            (blob.len() as usize, generation),
        ),
        within(contents_of(pages, 1, fork.nblocks as int), blob.len()) == blob,
{
    let (len, cap, n) = (blob.len() as int, fork.capacity() as int, fork.nblocks as int);
    assert(len <= (n - 1) * cap) by (nonlinear_arith)
        requires
            cap > 0,
            len >= 0,
            1 + (len + cap - 1) / cap <= n,
    ;
    assert(fork.nblocks > 0);
    let meta = meta_bytes(blob.len(), generation as nat);
    assert(pages(0) == page_of(meta, blob, fork.capacity(), 0));
    metapages_round_trip(fork, blob.len() as usize, generation);
    lemma_chunks(pages, fork, blob, generation, 1);
    assert(within(contents_of(pages, 1, fork.nblocks as int), blob.len()) =~= blob);
}

/// A stored index loads as what was stored: graph, addresses and the rows without
/// a vector.
#[verifier::rlimit(40)]
#[verifier::spinoff_prover]
pub proof fn stored_indexes_load(
    pages: spec_fn(u32) -> Seq<u8>,
    fork: Fork,
    s: Stored,
    generation: u64,
)
    requires
        fork.capacity() > 0,
        decodable(s.graph),
        s.graph.nodes.len() == s.tids.len(),
        countable(s.unranked),
        s.image().len() <= usize::MAX,
        image_on(pages, fork, s.image(), generation),
        pages_needed(s.image().len(), fork.capacity()) <= fork.nblocks,
    ensures
        loaded(fork, pages) == Ok::<Stored, LoadError>(s),
{
    let (g, tids) = (s.graph, s.tids);
    let (graph, blob) = (encode(g), payload(encode(g), tids));
    images_read_back(pages, fork, s.image(), generation);
    unranked_tables_read_back(s.unranked, blob);
    lemma_le_len(graph.len(), 8);
    lemma_le_len(tids.len(), 8);
    splitting_inverts_framing(graph, tids);
    decoding_inverts_encoding(g);
    let rest = blob.skip(8);
    assert(within(rest, graph.len()) =~= graph) by {
        assert(rest =~= graph + super::payload::tid_table(tids));
    }
    assert(rest.take(graph.len() as int) =~= graph);
    assert(payload_index(blob, 0) == Ok::<(Graph, Seq<TidPair>), LoadError>((g, tids)));
}

/// A metapage starts with the bytes `DNRB`, then the number 3, then the payload's
/// length and its generation, in 24 bytes. Digits to base 256 come lowest first.
pub proof fn metapages_are_laid_out(blob_len: u64, generation: u64, i: int)
    requires
        0 <= i < 8,
    ensures
        ({
            let meta = meta_bytes(blob_len as nat, generation as nat);
            &&& meta.len() == 24
            &&& meta.take(8) == seq![0x44u8, 0x4eu8, 0x52u8, 0x42u8, 3u8, 0u8, 0u8, 0u8]
            &&& meta[8 + i] as int == (blob_len as int / pow(256, i as nat)) % 256
            &&& meta[16 + i] as int == (generation as int / pow(256, i as nat)) % 256
        }),
{
    let meta = meta_bytes(blob_len as nat, generation as nat);
    broadcast use lemma_le_len;

    bytes_are_little_endian(blob_len as nat, 8, i);
    bytes_are_little_endian(generation as nat, 8, i);
    assert(meta[8 + i] == le(blob_len as nat, 8)[i]);
    assert(meta[16 + i] == le(generation as nat, 8)[i]);
    reveal_with_fuel(le, 5);
    assert(le(META_MAGIC as nat, 4) =~= seq![0x44u8, 0x4eu8, 0x52u8, 0x42u8]);
    assert(le(STORAGE_VERSION as nat, 4) =~= seq![3u8, 0u8, 0u8, 0u8]);
    assert(meta.take(8) =~= seq![0x44u8, 0x4eu8, 0x52u8, 0x42u8, 3u8, 0u8, 0u8, 0u8]);
}

/// A metapage is read from its first 24 bytes, whatever follows them, and only
/// one that the format accounts for is: the length it gives fits the fork's other
/// pages, which hold `page_size - 24` bytes each.
pub proof fn metapages_are_read_from_their_start(fork: Fork, contents: Seq<u8>)
    requires
        fork.nblocks > 0,
        contents.len() >= 24,
        fork.page_size >= 24,
    ensures
        meta_of(fork, contents) == meta_of(fork, contents.take(24)),
        meta_of(fork, contents) matches Ok((len, generation)) ==> {
            &&& contents.take(24) == meta_bytes(len as nat, generation as nat)
            &&& len <= (fork.nblocks - 1) * (fork.page_size - 24)
        },
{
    let start = contents.take(24);
    assert(start.subrange(0, 4) =~= contents.subrange(0, 4));
    assert(start.subrange(4, 8) =~= contents.subrange(4, 8));
    assert(start.subrange(8, 16) =~= contents.subrange(8, 16));
    assert(start.subrange(16, 24) =~= contents.subrange(16, 24));
    if let Ok((len, generation)) = meta_of(fork, contents) {
        lemma_byte_ranges();
        lemma_from_le_bound(start.subrange(0, 4));
        lemma_from_le_bound(start.subrange(4, 8));
        lemma_from_le_bound(start.subrange(16, 24));
        lemma_le_of_from_le(start.subrange(0, 4));
        lemma_le_of_from_le(start.subrange(4, 8));
        lemma_le_of_from_le(start.subrange(8, 16));
        lemma_le_of_from_le(start.subrange(16, 24));
        assert(start =~= start.subrange(0, 4) + start.subrange(4, 8) + start.subrange(8, 16)
            + start.subrange(16, 24));
    }
}

/// Byte `j` of a payload lies on the pages in order: each page after the metapage
/// is full before the next one is begun, and pages past the payload are empty.
pub proof fn payload_bytes_lie_in_order(
    meta: Seq<u8>,
    blob: Seq<u8>,
    capacity: nat,
    page: int,
    at: int,
)
    requires
        page >= 1,
        0 <= at < capacity,
    ensures
        ({
            let held = page_of(meta, blob, capacity, page);
            let j = (page - 1) * capacity + at;
            &&& held.len() <= capacity
            &&& at < held.len() <==> j < blob.len()
            &&& j < blob.len() ==> held[at] == blob[j]
        }),
        page_of(meta, blob, capacity, 0) == meta,
{
    assert((page - 1) * capacity >= 0) by (nonlinear_arith)
        requires
            page >= 1,
    ;
}

/// An image takes no more pages than it needs: the metapage, and as few others as
/// hold the payload.
pub proof fn images_take_the_pages_they_need(len: nat, capacity: nat)
    requires
        capacity > 0,
    ensures
        pages_needed(len, capacity) >= 1,
        len <= (pages_needed(len, capacity) - 1) * capacity,
        pages_needed(len, capacity) >= 2 ==> (pages_needed(len, capacity) - 2) * capacity < len,
{
    let (l, c) = (len as int, capacity as int);
    let n = (l + c - 1) / c;
    assert(n >= 0 && l <= n * c && (n - 1) * c < l) by (nonlinear_arith)
        requires
            c > 0,
            l >= 0,
            n == (l + c - 1) / c,
    ;
}

/// Writing advances the generation by one, around the end of the counter, so that
/// a write is never mistaken for the one before.
pub proof fn generations_advance(generation: u64)
    ensures
        next_generation(generation) != generation,
        generation < 0xffff_ffff_ffff_ffff ==> next_generation(generation) == generation + 1,
        next_generation(0xffff_ffff_ffff_ffff) == 0,
{
}

/// A stored index is written part after part: the rows without a vector, counted;
/// the graph's length and the graph; the addresses, counted. An address takes four
/// bytes of block and two of offset.
pub proof fn stored_parts_follow_one_another(s: Stored)
    ensures
        s.image() == le(s.unranked.len(), 8) + encode_all_unranked(s.unranked) + le(
            encode(s.graph).len(),
            8,
        ) + encode(s.graph) + le(s.tids.len(), 8) + encode_tids(s.tids),
        encode_all_unranked(Seq::empty()).len() == 0,
        encode_tids(Seq::empty()).len() == 0,
{
    assert(s.image() =~= le(s.unranked.len(), 8) + encode_all_unranked(s.unranked) + le(
        encode(s.graph).len(),
        8,
    ) + encode(s.graph) + le(s.tids.len(), 8) + encode_tids(s.tids));
}

/// One more address takes its place after the others.
pub proof fn one_more_address_is_appended(tids: Seq<TidPair>, tid: TidPair)
    ensures
        encode_tids(tids.push(tid)) == encode_tids(tids) + le(tid.0 as nat, 4) + le(
            tid.1 as nat,
            2,
        ),
{
    assert(tids.push(tid).drop_last() =~= tids);
    assert(encode_tids(tids.push(tid)) =~= encode_tids(tids) + le(tid.0 as nat, 4) + le(
        tid.1 as nat,
        2,
    ));
}

/// One more row without a vector takes its place after the others: its address,
/// how many attributes it has, and those.
pub proof fn one_more_row_is_appended(rows: Seq<UnrankedRow>, row: UnrankedRow)
    ensures
        encode_all_unranked(rows.push(row)) == encode_all_unranked(rows) + le(
            row.tid.0 as nat,
            4,
        ) + le(row.tid.1 as nat, 2) + le(row.attrs.len(), 8) + encode_values(row.attrs),
    decreases rows.len(),
{
    let more = rows.push(row);
    let bytes = le(row.tid.0 as nat, 4) + le(row.tid.1 as nat, 2) + le(row.attrs.len(), 8)
        + encode_values(row.attrs);
    if rows.len() == 0 {
        assert(more.drop_first() =~= Seq::empty());
        assert(encode_all_unranked(more.drop_first()) =~= Seq::<u8>::empty());
    } else {
        one_more_row_is_appended(rows.drop_first(), row);
        assert(more.drop_first() =~= rows.drop_first().push(row));
    }
    assert(encode_all_unranked(more) =~= encode_all_unranked(rows) + bytes);
    assert(encode_all_unranked(rows) + bytes =~= encode_all_unranked(rows) + le(
        row.tid.0 as nat,
        4,
    ) + le(row.tid.1 as nat, 2) + le(row.attrs.len(), 8) + encode_values(row.attrs));
}

} // verus!
