//! The stored payload: a serialized graph followed by the table that maps node
//! ids to heap addresses.

use crate::bytes::{
    from_le, get_le, le, lemma_byte_ranges, lemma_from_le_bound, lemma_from_le_of_le, lemma_le_len,
    lemma_le_of_from_le, put_le,
};
use crate::hnsw::codec::reading;
use crate::hnsw::codec_laws::{lemma_take_le_back, lemma_take_len_there};
use crate::hnsw::format::encode;
use crate::hnsw::source::{take_len, GraphBytes, HnswDecodeError};
use crate::hnsw::Hnsw;
use vstd::prelude::*;
use vstd::slice::slice_subrange;

verus! {

/// Errors from decoding the payload framing.
#[derive(Debug, Clone, Copy, PartialEq, Eq, Structural)]
pub enum PayloadError {
    /// The payload ended before the encoding said it would.
    Truncated,
    /// Extra bytes follow the encoded payload.
    TrailingBytes,
}

impl PayloadError {
    /// The text a user sees.
    pub open spec fn text(self) -> Seq<char> {
        match self {
            PayloadError::Truncated => "index payload is truncated"@,
            PayloadError::TrailingBytes => "index payload has trailing bytes"@,
        }
    }

    /// The text a user sees.
    pub fn message(&self) -> (s: String)
        ensures
            s@ == self.text(),
    {
        let mut s = String::new();
        match self {
            PayloadError::Truncated => {
                s.append("index payload is truncated");
            },
            PayloadError::TrailingBytes => {
                s.append("index payload has trailing bytes");
            },
        }
        assert(s@ =~= self.text());
        s
    }
}

/// A heap tuple address: block number and offset number.
pub type TidPair = (u32, u16);

/// Bytes one address takes.
pub const TID_LEN: usize = 6;

/// One address as stored.
pub open spec fn encode_tid(tid: TidPair) -> Seq<u8> {
    le(tid.0 as nat, 4) + le(tid.1 as nat, 2)
}

/// Addresses as stored.
pub open spec fn encode_tids(tids: Seq<TidPair>) -> Seq<u8>
    decreases tids.len(),
{
    if tids.len() == 0 {
        Seq::empty()
    } else {
        encode_tids(tids.drop_last()) + encode_tid(tids.last())
    }
}

/// The address table: a count, then that many addresses.
pub open spec fn tid_table(tids: Seq<TidPair>) -> Seq<u8> {
    le(tids.len(), 8) + encode_tids(tids)
}

/// The whole payload: the graph's length, the graph, the address table.
pub open spec fn payload(graph: Seq<u8>, tids: Seq<TidPair>) -> Seq<u8> {
    le(graph.len(), 8) + graph + tid_table(tids)
}

/// The address some bytes hold at entry `i`.
pub open spec fn tid_at(b: Seq<u8>, i: int) -> TidPair {
    (
        from_le(b.subrange(6 * i, 6 * i + 4)) as u32,
        from_le(b.subrange(6 * i + 4, 6 * i + 6)) as u16,
    )
}

/// The addresses some bytes hold.
pub open spec fn tids_in(b: Seq<u8>, count: nat) -> Seq<TidPair> {
    Seq::new(count, |i: int| tid_at(b, i))
}

/// The graph's declared length, and what follows it. A length beyond what the
/// source claims to hold is a truncation.
pub open spec fn graph_len(b: Seq<u8>, extra: nat) -> Result<(nat, Seq<u8>), PayloadError> {
    match take_len(b) {
        Err(_) => Err(PayloadError::Truncated),
        Ok((n, rest)) => if n > rest.len() + extra {
            Err(PayloadError::Truncated)
        } else {
            Ok((n, rest))
        },
    }
}

/// The address table some bytes hold, which must end where they do. `extra` is
/// how many more bytes the source claims than it holds.
pub open spec fn table_of(b: Seq<u8>, extra: nat) -> Result<Seq<TidPair>, PayloadError> {
    match take_len(b) {
        Err(_) => Err(PayloadError::Truncated),
        Ok((count, rest)) => if rest.len() < 6 * count {
            Err(PayloadError::Truncated)
        } else if rest.len() + extra > 6 * count {
            Err(PayloadError::TrailingBytes)
        } else {
            Ok(tids_in(rest, count))
        },
    }
}

/// A payload split into its graph and its addresses.
pub open spec fn split_payload(b: Seq<u8>) -> Result<(Seq<u8>, Seq<TidPair>), PayloadError> {
    match graph_len(b, 0) {
        Err(e) => Err(e),
        Ok((n, rest)) => match table_of(rest.skip(n as int), 0) {
            Err(e) => Err(e),
            Ok(tids) => Ok((rest.take(n as int), tids)),
        },
    }
}

proof fn lemma_encode_tids_len(tids: Seq<TidPair>)
    ensures
        encode_tids(tids).len() == 6 * tids.len(),
    decreases tids.len(),
{
    if tids.len() > 0 {
        lemma_encode_tids_len(tids.drop_last());
        lemma_le_len(tids.last().0 as nat, 4);
        lemma_le_len(tids.last().1 as nat, 2);
    }
}

/// Addresses written are read back.
proof fn lemma_tids_there(tids: Seq<TidPair>)
    ensures
        tids_in(encode_tids(tids), tids.len()) == tids,
    decreases tids.len(),
{
    if tids.len() > 0 {
        let (head, last) = (tids.drop_last(), tids.last());
        let (before, b) = (encode_tids(head), encode_tids(tids));
        let n = head.len() as int;
        lemma_tids_there(head);
        lemma_encode_tids_len(head);
        lemma_byte_ranges();
        lemma_le_len(last.0 as nat, 4);
        lemma_le_len(last.1 as nat, 2);
        lemma_from_le_of_le(last.0 as nat, 4);
        lemma_from_le_of_le(last.1 as nat, 2);
        assert(b.subrange(6 * n, 6 * n + 4) =~= le(last.0 as nat, 4));
        assert(b.subrange(6 * n + 4, 6 * n + 6) =~= le(last.1 as nat, 2));
        assert forall|i: int| 0 <= i < n implies tid_at(b, i) == head[i] by {
            assert(tids_in(before, head.len())[i] == head[i]);
            assert(b.subrange(6 * i, 6 * i + 4) =~= before.subrange(6 * i, 6 * i + 4));
            assert(b.subrange(6 * i + 4, 6 * i + 6) =~= before.subrange(6 * i + 4, 6 * i + 6));
        }
    }
    assert(tids_in(encode_tids(tids), tids.len()) =~= tids);
}

/// Addresses read are what stands there.
proof fn lemma_tids_back(b: Seq<u8>, count: nat)
    requires
        b.len() == 6 * count,
    ensures
        encode_tids(tids_in(b, count)) == b,
    decreases count,
{
    let tids = tids_in(b, count);
    if count > 0 {
        let n = count - 1;
        let head = b.take(6 * n);
        lemma_tids_back(head, n as nat);
        assert(tids.drop_last() =~= tids_in(head, n as nat)) by {
            assert forall|i: int| 0 <= i < n implies tid_at(b, i) == tid_at(head, i) by {
                assert(b.subrange(6 * i, 6 * i + 4) =~= head.subrange(6 * i, 6 * i + 4));
                assert(b.subrange(6 * i + 4, 6 * i + 6) =~= head.subrange(6 * i + 4, 6 * i + 6));
            }
        }
        let (block, offset) = (b.subrange(6 * n, 6 * n + 4), b.subrange(6 * n + 4, 6 * n + 6));
        lemma_byte_ranges();
        lemma_from_le_bound(block);
        lemma_from_le_bound(offset);
        lemma_le_of_from_le(block);
        lemma_le_of_from_le(offset);
        assert(encode_tid(tids.last()) == block + offset);
        assert(b =~= head + (block + offset));
    } else {
        assert(b =~= Seq::<u8>::empty());
    }
}

/// A payload splits back into the graph and the addresses it was framed from.
pub proof fn splitting_inverts_framing(graph: Seq<u8>, tids: Seq<TidPair>)
    requires
        graph.len() <= usize::MAX,
        tids.len() <= usize::MAX,
    ensures
        split_payload(payload(graph, tids)) == Ok::<(Seq<u8>, Seq<TidPair>), PayloadError>(
            (graph, tids),
        ),
{
    let rest = graph + tid_table(tids);
    assert(payload(graph, tids) =~= le(graph.len(), 8) + rest);
    lemma_take_len_there(graph.len(), rest);
    assert(rest.take(graph.len() as int) =~= graph);
    assert(rest.skip(graph.len() as int) =~= tid_table(tids));
    lemma_take_len_there(tids.len(), encode_tids(tids));
    lemma_encode_tids_len(tids);
    lemma_tids_there(tids);
}

/// Only payloads split: bytes that split into a graph and addresses are the
/// payload framed from them.
pub proof fn only_payloads_split(b: Seq<u8>)
    ensures
        split_payload(b) matches Ok((graph, tids)) ==> b == payload(graph, tids),
{
    if let Ok((graph, tids)) = split_payload(b) {
        let (n, rest) = graph_len(b, 0)->Ok_0;
        let tail = rest.skip(n as int);
        let (count, entries) = take_len(tail)->Ok_0;
        lemma_take_le_back(b, 8);
        lemma_take_le_back(tail, 8);
        lemma_tids_back(entries, count);
        assert(rest =~= graph + tail);
        assert(b =~= payload(graph, tids));
    }
}

/// Bytes after a payload are refused.
pub proof fn bytes_after_a_payload_are_refused(b: Seq<u8>, more: Seq<u8>)
    requires
        split_payload(b) is Ok,
        more.len() > 0,
    ensures
        split_payload(b + more) == Err::<(Seq<u8>, Seq<TidPair>), PayloadError>(
            PayloadError::TrailingBytes,
        ),
{
    let (n, rest) = graph_len(b, 0)->Ok_0;
    let c = b + more;
    assert(c.take(8) =~= b.take(8));
    assert(c.skip(8) =~= rest + more);
    let tail = rest.skip(n as int);
    let longer = (rest + more).skip(n as int);
    assert(longer.take(8) =~= tail.take(8));
    assert(longer.skip(8) =~= tail.skip(8) + more);
}

/// A proper prefix of a payload is refused as truncated.
pub proof fn payload_prefixes_are_refused(b: Seq<u8>, cut: int)
    requires
        split_payload(b) is Ok,
        0 <= cut < b.len(),
    ensures
        split_payload(b.take(cut)) == Err::<(Seq<u8>, Seq<TidPair>), PayloadError>(
            PayloadError::Truncated,
        ),
{
    let head = b.take(cut);
    let (n, rest) = graph_len(b, 0)->Ok_0;
    let (count, entries) = take_len(rest.skip(n as int))->Ok_0;
    if cut >= 8 {
        assert(head.take(8) =~= b.take(8));
        assert(head.skip(8) =~= rest.take(cut - 8));
        if cut >= 8 + n {
            let tail = rest.take(cut - 8).skip(n as int);
            assert(tail =~= rest.skip(n as int).take(cut - 8 - n));
            if cut >= 16 + n {
                assert(tail.take(8) =~= rest.skip(n as int).take(8));
                assert(tail.skip(8) =~= entries.take(cut - 16 - n));
            }
        }
    }
}

/// Append an address table.
pub fn append_tid_table(out: &mut Vec<u8>, tids: &[TidPair])
    ensures
        final(out)@ == old(out)@ + tid_table(tids@),
{
    put_le(out, tids.len() as u64, 8);
    let ghost start = out@;
    let mut i: usize = 0;
    assert(tids@.take(0) =~= Seq::<TidPair>::empty());
    assert(out@ =~= start + encode_tids(tids@.take(0)));
    while i < tids.len()
        invariant
            i <= tids@.len(),
            out@ == start + encode_tids(tids@.take(i as int)),
        decreases tids@.len() - i,
    {
        let ghost before = out@;
        put_le(out, tids[i].0 as u64, 4);
        put_le(out, tids[i].1 as u64, 2);
        proof {
            let next = tids@.take(i + 1);
            assert(next.drop_last() =~= tids@.take(i as int));
            assert(next.last() == tids@[i as int]);
            assert(out@ =~= start + encode_tids(next));
        }
        i += 1;
    }
    assert(tids@.take(tids@.len() as int) =~= tids@);
    assert(out@ =~= old(out)@ + tid_table(tids@));
}

/// Overwrite eight bytes with a number.
fn set_le8(out: &mut Vec<u8>, at: usize, value: u64)
    requires
        at + 8 <= old(out)@.len(),
    ensures
        final(out)@ == old(out)@.take(at as int) + le(value as nat, 8) + old(out)@.skip(at + 8),
{
    assert(out.len() == out@.len());
    let mut field: Vec<u8> = Vec::new();
    put_le(&mut field, value, 8);
    proof {
        lemma_le_len(value as nat, 8);
    }
    assert(field@ =~= le(value as nat, 8));
    let mut i: usize = 0;
    while i < 8
        invariant
            i <= 8,
            at + 8 <= out@.len() <= usize::MAX,
            out@.len() == old(out)@.len(),
            field@ == le(value as nat, 8),
            field@.len() == 8,
            forall|k: int| at <= k < at + i ==> #[trigger] out@[k] == field@[k - at],
            forall|k: int|
                0 <= k < out@.len() && !(at <= k < at + i) ==> #[trigger] out@[k] == old(out)@[k],
        decreases 8 - i,
    {
        out.set(at + i, field[i]);
        i += 1;
    }
    assert(out@ =~= old(out)@.take(at as int) + le(value as nat, 8) + old(out)@.skip(at + 8));
}

/// Frame a graph and its address table into one payload. The graph is serialized
/// straight into it, so a build never holds a second copy. `tids[i]` is the heap
/// address of node `i`.
pub fn encode_index(hnsw: &Hnsw, tids: &[TidPair]) -> (out: Vec<u8>)
    requires
        hnsw.wf(),
    ensures
        out@ == payload(encode(hnsw@), tids@),
{
    let mut out: Vec<u8> = Vec::new();
    append_index(&mut out, hnsw, tids);
    assert(out@ =~= payload(encode(hnsw@), tids@));
    out
}

/// Append the payload of a graph and its address table.
pub(crate) fn append_index(out: &mut Vec<u8>, hnsw: &Hnsw, tids: &[TidPair])
    requires
        hnsw.wf(),
    ensures
        final(out)@ == old(out)@ + payload(encode(hnsw@), tids@),
{
    let ghost start = out@;
    let at: usize = out.len();
    put_le(out, 0, 8);
    proof {
        lemma_le_len(0, 8);
    }
    hnsw.to_bytes_into(out);
    let ghost graph = encode(hnsw@);
    assert(out@ =~= start + le(0, 8) + graph);
    assert(out.len() == out@.len());
    let len: usize = out.len() - at - 8;
    set_le8(out, at, len as u64);
    assert(out@ =~= start + le(graph.len(), 8) + graph);
    append_tid_table(out, tids);
    assert(out@ =~= start + payload(graph, tids@));
}

/// Frame an already serialized graph and an address table into one payload.
pub fn encode_index_payload(graph: &[u8], tids: &[TidPair]) -> (out: Vec<u8>)
    ensures
        out@ == payload(graph@, tids@),
{
    let mut out: Vec<u8> = Vec::new();
    put_le(&mut out, graph.len() as u64, 8);
    out.extend_from_slice(graph);
    append_tid_table(&mut out, tids);
    assert(out@ =~= payload(graph@, tids@));
    out
}

/// Read the graph's declared length, and check that the source claims that many
/// bytes.
pub fn read_graph_len<S: GraphBytes + ?Sized>(src: &mut S) -> (r: Result<usize, PayloadError>)
    requires
        old(src).readable(),
        old(src).bytes().len() <= old(src).declared(),
    ensures
        r is Ok ==> final(src).beyond() == old(src).beyond(),
        ({
            let extra = (old(src).declared() - old(src).bytes().len()) as nat;
            match (r, graph_len(old(src).bytes(), extra)) {
                (Ok(n), Ok((len, rest))) => n == len && reading(final(src), rest, extra),
                (Err(e), Err(f)) => e == f,
                _ => false,
            }
        }),
{
    match src.read_len() {
        Err(_) => Err(PayloadError::Truncated),
        Ok(len) => {
            if len > src.remaining() {
                return Err(PayloadError::Truncated);
            }
            Ok(len)
        },
    }
}

/// Read one address.
fn read_tid<S: GraphBytes + ?Sized>(src: &mut S) -> (r: Result<TidPair, PayloadError>)
    requires
        old(src).readable(),
        old(src).bytes().len() <= old(src).declared(),
    ensures
        r is Ok ==> final(src).beyond() == old(src).beyond(),
        match r {
            Ok(tid) => {
                &&& old(src).bytes().len() >= 6
                &&& tid == tid_at(old(src).bytes(), 0)
                &&& final(src).readable()
                &&& final(src).bytes() == old(src).bytes().skip(6)
                &&& final(src).declared() == old(src).declared() - 6
            },
            Err(e) => e == PayloadError::Truncated && old(src).bytes().len() < 6,
        },
{
    let mut entry: [u8; 6] = [0u8; 6];
    match src.read_exact(&mut entry) {
        Err(_) => Err(PayloadError::Truncated),
        Ok(_) => {
            let ghost b = old(src).bytes();
            let head = slice_subrange(&entry, 0, 4);
            let tail = slice_subrange(&entry, 4, 6);
            proof {
                assert(head@ =~= b.subrange(0, 4));
                assert(tail@ =~= b.subrange(4, 6));
                lemma_from_le_bound(head@);
                lemma_from_le_bound(tail@);
                lemma_byte_ranges();
            }
            let block: u64 = get_le(head);
            let offset: u64 = get_le(tail);
            Ok((block as u32, offset as u16))
        },
    }
}

/// Read the address table that follows the graph, and require the payload to end
/// there.
pub fn read_tid_table<S: GraphBytes + ?Sized>(src: &mut S) -> (r: Result<
    Vec<TidPair>,
    PayloadError,
>)
    requires
        old(src).readable(),
        old(src).bytes().len() <= old(src).declared(),
    ensures
        r is Ok ==> final(src).beyond() == old(src).beyond(),
        ({
            let extra = (old(src).declared() - old(src).bytes().len()) as nat;
            match (r, table_of(old(src).bytes(), extra)) {
                (Ok(v), Ok(tids)) => v@ == tids,
                (Err(e), Err(f)) => e == f,
                _ => false,
            }
        }),
{
    let ghost extra = (src.declared() - src.bytes().len()) as nat;
    let count: usize = match src.read_len() {
        Err(_) => {
            return Err(PayloadError::Truncated);
        },
        Ok(count) => count,
    };
    let ghost rest = src.bytes();
    // A corrupt count must not turn into a huge reservation.
    if src.remaining() / TID_LEN < count {
        return Err(PayloadError::Truncated);
    }
    let mut tids: Vec<TidPair> = Vec::with_capacity(count);
    let mut i: usize = 0;
    assert(rest.skip(0) =~= rest);
    while i < count
        invariant
            i <= count,
            take_len(old(src).bytes()) == Ok::<(nat, Seq<u8>), HnswDecodeError>(
                (count as nat, rest),
            ),
            extra == (old(src).declared() - old(src).bytes().len()) as nat,
            6 * i <= rest.len(),
            reading(src, rest.skip(6 * i), extra),
            src.beyond() == old(src).beyond(),
            tids@ == tids_in(rest, i as nat),
        decreases count - i,
    {
        let ghost b = rest.skip(6 * i);
        match read_tid(src) {
            Ok(tid) => {
                proof {
                    assert(b.subrange(0, 4) =~= rest.subrange(6 * i, 6 * i + 4));
                    assert(b.subrange(4, 6) =~= rest.subrange(6 * i + 4, 6 * i + 6));
                    assert(b.skip(6) =~= rest.skip(6 * (i + 1)));
                }
                tids.push(tid);
                assert(tids@ =~= tids_in(rest, (i + 1) as nat));
            },
            Err(e) => {
                return Err(e);
            },
        }
        i += 1;
    }
    if src.remaining() != 0 {
        return Err(PayloadError::TrailingBytes);
    }
    Ok(tids)
}

/// Split a payload produced by [`encode_index`] back into the serialized graph
/// and the address table.
pub fn decode_index_payload(blob: &[u8]) -> (r: Result<(&[u8], Vec<TidPair>), PayloadError>)
    ensures
        match (r, split_payload(blob@)) {
            (Ok((graph, tids)), Ok((g, t))) => graph@ == g && tids@ == t,
            (Err(e), Err(f)) => e == f,
            _ => false,
        },
{
    let mut src: &[u8] = blob;
    let len: usize = match read_graph_len(&mut src) {
        Err(e) => {
            return Err(e);
        },
        Ok(len) => len,
    };
    let ghost rest = src@;
    let graph = slice_subrange(src, 0, len);
    let mut tail = slice_subrange(src, len, src.len());
    assert(graph@ =~= rest.take(len as int));
    assert(tail@ =~= rest.skip(len as int));
    match read_tid_table(&mut tail) {
        Err(e) => Err(e),
        Ok(tids) => Ok((graph, tids)),
    }
}

} // verus!
