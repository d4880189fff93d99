//! An index whole: its graph, the heap address of every node, and the rows that
//! have no place in the graph.
//!
//! A row whose vector is `NULL` has no distance to anything, so there is nothing
//! to place or to rank. It is kept beside the graph, with its attributes, for the
//! scans that return every matching row rather than the nearest ones. In the
//! image these rows stand in a table of their own, ahead of the payload.

use super::payload::{append_index, encode_tid, payload, TidPair};
use crate::bytes::{le, lemma_byte_ranges, lemma_le_len, put_le};
use crate::filter::AttrValue;
use crate::hnsw::codec::{put_values, read_row, reading};
use crate::hnsw::codec_laws::{
    lemma_take_le_back, lemma_take_le_there, lemma_take_len_there, lemma_values_back,
    lemma_values_there,
};
use crate::hnsw::format::{encode, encode_values, parse_row, parse_values};
use crate::hnsw::graph::Graph;
use crate::hnsw::source::{take_le, take_len, GraphBytes, HnswDecodeError, Parsed};
use crate::hnsw::{Hnsw, HnswParams};
use vstd::prelude::*;

verus! {

/// A row without a vector.
#[derive(Debug)]
pub struct Unranked {
    pub tid: TidPair,
    pub attrs: Vec<AttrValue>,
}

/// A row without a vector, as a value.
pub struct UnrankedRow {
    pub tid: TidPair,
    pub attrs: Seq<AttrValue>,
}

impl View for Unranked {
    type V = UnrankedRow;

    open spec fn view(&self) -> UnrankedRow {
        UnrankedRow { tid: self.tid, attrs: self.attrs@ }
    }
}

/// Rows without a vector, as values.
pub open spec fn unranked_rows(rows: Seq<Unranked>) -> Seq<UnrankedRow> {
    Seq::new(rows.len(), |i: int| rows[i]@)
}

/// An index as a value: its graph, the heap address of every node, and the rows
/// without a vector.
pub struct Stored {
    pub graph: Graph,
    pub tids: Seq<TidPair>,
    pub unranked: Seq<UnrankedRow>,
}

impl Stored {
    /// A sound graph whose every node has an address.
    pub open spec fn in_step(self) -> bool {
        &&& self.graph.valid()
        &&& self.graph.nodes.len() == self.tids.len()
    }

    /// What is written to the pages.
    pub open spec fn image(self) -> Seq<u8> {
        unranked_table(self.unranked) + payload(encode(self.graph), self.tids)
    }
}

/// An index in memory. Node ids are dense insertion order, so `tids[i]` addresses
/// node `i`.
pub struct Index {
    pub hnsw: Hnsw,
    pub tids: Vec<TidPair>,
    pub unranked: Vec<Unranked>,
}

impl View for Index {
    type V = Stored;

    open spec fn view(&self) -> Stored {
        Stored {
            graph: self.hnsw@,
            tids: self.tids@,
            unranked: unranked_rows(self.unranked@),
        }
    }
}

/// Bytes of a row without a vector: its address, its attribute count, its
/// attributes.
pub open spec fn encode_unranked(row: UnrankedRow) -> Seq<u8> {
    encode_tid(row.tid) + le(row.attrs.len(), 8) + encode_values(row.attrs)
}

/// Bytes of a run of rows without a vector.
pub open spec fn encode_all_unranked(rows: Seq<UnrankedRow>) -> Seq<u8>
    decreases rows.len(),
{
    if rows.len() == 0 {
        Seq::empty()
    } else {
        encode_unranked(rows[0]) + encode_all_unranked(rows.drop_first())
    }
}

/// The table of rows without a vector: a count, then that many rows.
pub open spec fn unranked_table(rows: Seq<UnrankedRow>) -> Seq<u8> {
    le(rows.len(), 8) + encode_all_unranked(rows)
}

/// One row without a vector. `extra` is how many bytes are declared beyond `b`.
pub open spec fn parse_unranked(b: Seq<u8>, extra: nat) -> Parsed<UnrankedRow> {
    match take_le(b, 4) {
        Err(e) => Err(e),
        Ok((block, rest)) => match take_le(rest, 2) {
            Err(e) => Err(e),
            Ok((offset, tail)) => match parse_row(tail, extra) {
                Err(e) => Err(e),
                Ok((attrs, end)) => Ok(
                    (UnrankedRow { tid: (block as u32, offset as u16), attrs }, end),
                ),
            },
        },
    }
}

/// `left` more rows without a vector, after those in `done`.
pub open spec fn parse_all_unranked(
    b: Seq<u8>,
    extra: nat,
    left: nat,
    done: Seq<UnrankedRow>,
) -> Parsed<Seq<UnrankedRow>>
    decreases left,
{
    if left == 0 {
        Ok((done, b))
    } else {
        match parse_unranked(b, extra) {
            Err(e) => Err(e),
            Ok((row, rest)) => parse_all_unranked(rest, extra, (left - 1) as nat, done.push(row)),
        }
    }
}

/// The table of rows without a vector, and what follows it.
pub open spec fn parse_table(b: Seq<u8>, extra: nat) -> Parsed<Seq<UnrankedRow>> {
    match take_len(b) {
        Err(e) => Err(e),
        Ok((count, rest)) => parse_all_unranked(rest, extra, count, Seq::empty()),
    }
}

/// Every row's attributes can be counted in memory.
pub open spec fn countable(rows: Seq<UnrankedRow>) -> bool {
    &&& rows.len() <= usize::MAX
    &&& forall|i: int| 0 <= i < rows.len() ==> (#[trigger] rows[i]).attrs.len() <= usize::MAX
}

proof fn lemma_unranked_there(row: UnrankedRow, rest: Seq<u8>)
    requires
        row.attrs.len() <= usize::MAX,
    ensures
        parse_unranked(encode_unranked(row) + rest, 0) == Ok::<
            (UnrankedRow, Seq<u8>),
            HnswDecodeError,
        >((row, rest)),
{
    let values = encode_values(row.attrs);
    let tail = le(row.attrs.len(), 8) + (values + rest);
    let more = le(row.tid.1 as nat, 2) + tail;
    let b = encode_unranked(row) + rest;
    lemma_byte_ranges();
    assert(b =~= le(row.tid.0 as nat, 4) + more);
    lemma_take_le_there(row.tid.0 as nat, 4, more);
    lemma_take_le_there(row.tid.1 as nat, 2, tail);
    lemma_take_len_there(row.attrs.len(), values + rest);
    lemma_values_there(row.attrs, rest, Seq::empty());
    assert(Seq::<AttrValue>::empty() + row.attrs =~= row.attrs);
}

proof fn lemma_all_unranked_there(
    rows: Seq<UnrankedRow>,
    rest: Seq<u8>,
    done: Seq<UnrankedRow>,
)
    requires
        countable(rows),
    ensures
        parse_all_unranked(encode_all_unranked(rows) + rest, 0, rows.len(), done) == Ok::<
            (Seq<UnrankedRow>, Seq<u8>),
            HnswDecodeError,
        >((done + rows, rest)),
    decreases rows.len(),
{
    if rows.len() == 0 {
        assert(encode_all_unranked(rows) + rest =~= rest);
        assert(done + rows =~= done);
    } else {
        let tail = rows.drop_first();
        let more = encode_all_unranked(tail) + rest;
        assert(encode_all_unranked(rows) + rest =~= encode_unranked(rows[0]) + more);
        assert forall|i: int| 0 <= i < tail.len() implies (#[trigger] tail[i]).attrs.len()
            <= usize::MAX by {
            assert(tail[i] == rows[i + 1]);
        }
        lemma_unranked_there(rows[0], more);
        lemma_all_unranked_there(tail, rest, done.push(rows[0]));
        assert(done.push(rows[0]) + tail =~= done + rows);
    }
}

/// A table of rows without a vector is read back whole, whatever follows it.
pub proof fn unranked_tables_read_back(rows: Seq<UnrankedRow>, rest: Seq<u8>)
    requires
        countable(rows),
    ensures
        parse_table(unranked_table(rows) + rest, 0) == Ok::<
            (Seq<UnrankedRow>, Seq<u8>),
            HnswDecodeError,
        >((rows, rest)),
{
    let more = encode_all_unranked(rows) + rest;
    assert(unranked_table(rows) + rest =~= le(rows.len(), 8) + more);
    lemma_take_len_there(rows.len(), more);
    lemma_all_unranked_there(rows, rest, Seq::empty());
    assert(Seq::<UnrankedRow>::empty() + rows =~= rows);
}

proof fn lemma_unranked_back(b: Seq<u8>, extra: nat)
    ensures
        parse_unranked(b, extra) matches Ok((row, rest)) ==> {
            &&& b == encode_unranked(row) + rest
            &&& row.attrs.len() <= usize::MAX
        },
{
    if let Ok((row, rest)) = parse_unranked(b, extra) {
        let (block, after) = take_le(b, 4)->Ok_0;
        let (offset, tail) = take_le(after, 2)->Ok_0;
        let (count, values) = take_len(tail)->Ok_0;
        lemma_byte_ranges();
        lemma_take_le_back(b, 4);
        lemma_take_le_back(after, 2);
        lemma_take_le_back(tail, 8);
        lemma_values_back(values, count, Seq::empty());
        assert(row.attrs.skip(0) =~= row.attrs);
        assert(b =~= encode_unranked(row) + rest);
    }
}

proof fn lemma_all_unranked_back(b: Seq<u8>, extra: nat, left: nat, done: Seq<UnrankedRow>)
    ensures
        parse_all_unranked(b, extra, left, done) matches Ok((x, rest)) ==> {
            &&& x.len() == done.len() + left
            &&& x.take(done.len() as int) == done
            &&& b == encode_all_unranked(x.skip(done.len() as int)) + rest
            &&& forall|i: int|
                done.len() <= i < x.len() ==> (#[trigger] x[i]).attrs.len() <= usize::MAX
        },
    decreases left,
{
    if left == 0 {
        assert(done.take(done.len() as int) =~= done);
        assert(done.skip(done.len() as int) =~= Seq::<UnrankedRow>::empty());
        assert(b =~= encode_all_unranked(Seq::<UnrankedRow>::empty()) + b);
    } else {
        lemma_unranked_back(b, extra);
        if let Ok((row, tail)) = parse_unranked(b, extra) {
            let more = done.push(row);
            lemma_all_unranked_back(tail, extra, (left - 1) as nat, more);
            if let Ok((x, rest)) = parse_all_unranked(tail, extra, (left - 1) as nat, more) {
                let n = done.len() as int;
                assert(x.take(n) =~= x.take(n + 1).take(n));
                assert(more.take(n) =~= done);
                let s = x.skip(n);
                assert(x[n] == x.take(n + 1)[n]);
                assert(s[0] == row);
                assert(s.drop_first() =~= x.skip(n + 1));
                assert(b =~= encode_all_unranked(s) + rest);
            }
        }
    }
}

/// Only tables are read: bytes that give rows without a vector start with the
/// table of those rows.
pub proof fn only_unranked_tables_are_read(b: Seq<u8>, extra: nat)
    ensures
        parse_table(b, extra) matches Ok((rows, rest)) ==> b == unranked_table(rows) + rest
            && countable(rows),
{
    if let Ok((rows, rest)) = parse_table(b, extra) {
        let (count, tail) = take_len(b)->Ok_0;
        lemma_take_le_back(b, 8);
        lemma_all_unranked_back(tail, extra, count, Seq::empty());
        assert(rows.skip(0) =~= rows);
        assert(b =~= unranked_table(rows) + rest);
    }
}

/// Append a table of rows without a vector.
fn append_unranked(out: &mut Vec<u8>, rows: &[Unranked])
    ensures
        final(out)@ == old(out)@ + unranked_table(unranked_rows(rows@)),
{
    let ghost all = unranked_rows(rows@);
    put_le(out, rows.len() as u64, 8);
    let ghost start = out@;
    let mut i: usize = 0;
    assert(all.skip(0) =~= all);
    while i < rows.len()
        invariant
            i <= rows@.len(),
            all == unranked_rows(rows@),
            out@ + encode_all_unranked(all.skip(i as int)) == start + encode_all_unranked(all),
        decreases rows@.len() - i,
    {
        let ghost before = out@;
        let ghost rest = all.skip(i as int);
        let row = &rows[i];
        put_le(out, row.tid.0 as u64, 4);
        put_le(out, row.tid.1 as u64, 2);
        put_le(out, row.attrs.len() as u64, 8);
        put_values(row.attrs.as_slice(), out);
        proof {
            assert(rest[0] == row@);
            assert(out@ =~= before + encode_unranked(row@));
            assert(rest.drop_first() =~= all.skip(i + 1));
            assert(out@ + encode_all_unranked(rest.drop_first()) =~= before + encode_all_unranked(
                rest,
            ));
        }
        i += 1;
    }
    assert(all.skip(rows@.len() as int) =~= Seq::<UnrankedRow>::empty());
    assert(out@ + encode_all_unranked(Seq::<UnrankedRow>::empty()) =~= out@);
    assert(out@ =~= old(out)@ + unranked_table(all));
}

/// Read one row without a vector.
fn read_unranked<S: GraphBytes + ?Sized>(src: &mut S, Ghost(extra): Ghost<nat>) -> (r: Result<
    Unranked,
    HnswDecodeError,
>)
    requires
        reading(old(src), old(src).bytes(), extra),
    ensures
        r is Ok ==> final(src).beyond() == old(src).beyond(),
        match (r, parse_unranked(old(src).bytes(), extra)) {
            (Ok(row), Ok((x, rest))) => row@ == x && reading(final(src), rest, extra),
            (Err(e), Err(f)) => e == f,
            _ => false,
        },
{
    let block: u32 = src.u32()?;
    let offset: u16 = src.u16()?;
    let attrs = read_row(src, Ghost(extra))?;
    Ok(Unranked { tid: (block, offset), attrs })
}

/// Read the table of rows without a vector that an image starts with.
pub fn read_unranked_table<S: GraphBytes + ?Sized>(src: &mut S) -> (r: Result<
    Vec<Unranked>,
    HnswDecodeError,
>)
    requires
        old(src).readable(),
        old(src).bytes().len() <= old(src).declared(),
    ensures
        r is Ok ==> final(src).beyond() == old(src).beyond(),
        ({
            let extra = (old(src).declared() - old(src).bytes().len()) as nat;
            match (r, parse_table(old(src).bytes(), extra)) {
                (Ok(v), Ok((rows, rest))) => unranked_rows(v@) == rows && reading(
                    final(src),
                    rest,
                    extra,
                ),
                (Err(e), Err(f)) => e == f,
                _ => false,
            }
        }),
{
    let ghost extra = (src.declared() - src.bytes().len()) as nat;
    let ghost goal = parse_table(src.bytes(), extra);
    let count: usize = src.read_len()?;
    let mut out: Vec<Unranked> = Vec::new();
    let mut left: usize = count;
    assert(unranked_rows(out@) =~= Seq::<UnrankedRow>::empty());
    while left > 0
        invariant
            reading(src, src.bytes(), extra),
            src.beyond() == old(src).beyond(),
            extra == (old(src).declared() - old(src).bytes().len()) as nat,
            goal == parse_table(old(src).bytes(), extra),
            goal == parse_all_unranked(src.bytes(), extra, left as nat, unranked_rows(out@)),
        decreases left,
    {
        let ghost before = unranked_rows(out@);
        let row = read_unranked(src, Ghost(extra))?;
        let ghost x = row@;
        out.push(row);
        assert(unranked_rows(out@) =~= before.push(x));
        left = left - 1;
    }
    Ok(out)
}

impl Index {
    /// An index without rows.
    pub fn empty(params: HnswParams) -> (r: Self)
        requires
            params.m <= usize::MAX / 2,
        ensures
            r.hnsw.wf(),
            r@ == (Stored {
                graph: Graph::empty(params),
                tids: Seq::empty(),
                unranked: Seq::empty(),
            }),
    {
        let r = Index { hnsw: Hnsw::new(params), tids: Vec::new(), unranked: Vec::new() };
        assert(r@.unranked =~= Seq::<UnrankedRow>::empty());
        r
    }

    /// What is written to the pages.
    pub fn image(&self) -> (out: Vec<u8>)
        requires
            self.hnsw.wf(),
        ensures
            out@ == self@.image(),
    {
        let mut out: Vec<u8> = Vec::new();
        append_unranked(&mut out, self.unranked.as_slice());
        append_index(&mut out, &self.hnsw, self.tids.as_slice());
        assert(out@ =~= self@.image());
        out
    }
}

} // verus!
