//! Serializing graphs and reading them back.

use super::codec_laws::{null_total, the_length_hint_counts_nulls};
use super::format::{
    decode, encode, encode_components, encode_header, encode_ids, encode_lists, encode_node,
    encode_nodes, encode_value, encode_values, field, frame_of, header_fault, header_graph,
    parse_components, parse_flag, parse_ids, parse_levels, parse_list, parse_lists, parse_node,
    parse_nodes, parse_row, parse_value, parse_values, room_fault, signed, unsigned, Frame,
    ATTR_TAG_FLOAT, ATTR_TAG_INT, ATTR_TAG_NULL, CODEC_MAGIC, CODEC_VERSION, HEADER_LEN, SLOT_FLOOR,
};
use super::graph::{layers_of, Graph, Hnsw, Node};
use super::params::{degree_cap, derived_params, ef_floor, gamma_in_range, HnswParams};
use super::source::{take_le, take_len, ByteReader, GraphBytes, HnswDecodeError};
use crate::bytes::put_le;
use crate::filter::AttrValue;
use crate::vector::Metric;
use vstd::prelude::*;

verus! {

/// Bytes a run of nodes needs at most: exact but for `Null`s, which take one
/// byte where nine are counted.
pub open spec fn nodes_len_hint(nodes: Seq<Node>, dim: nat) -> nat
    decreases nodes.len(),
{
    if nodes.len() == 0 {
        0
    } else {
        nodes_len_hint(nodes.drop_last(), dim) + 17 + dim * 4 + lists_len(nodes.last().layers)
            + nodes.last().attrs.len() * 9
    }
}

/// Bytes of a run of neighbor lists.
pub open spec fn lists_len(lists: Seq<Seq<u32>>) -> nat
    decreases lists.len(),
{
    if lists.len() == 0 {
        0
    } else {
        lists_len(lists.drop_last()) + 8 + lists.last().len() * 8
    }
}

impl Graph {
    /// Upper bound on the length of the graph's serialization.
    pub open spec fn len_hint(self) -> nat {
        HEADER_LEN as nat + nodes_len_hint(self.nodes, self.dim)
    }
}

/// Hints grow with the nodes they cover.
proof fn lemma_hint_mono(nodes: Seq<Node>, dim: nat, upto: int)
    requires
        0 <= upto <= nodes.len(),
    ensures
        nodes_len_hint(nodes.take(upto), dim) <= nodes_len_hint(nodes, dim),
    decreases nodes.len(),
{
    if upto < nodes.len() {
        lemma_hint_mono(nodes.drop_last(), dim, upto);
        assert(nodes.drop_last().take(upto) =~= nodes.take(upto));
    } else {
        assert(nodes.take(upto) =~= nodes);
    }
}

proof fn lemma_lists_len_mono(lists: Seq<Seq<u32>>, upto: int)
    requires
        0 <= upto <= lists.len(),
    ensures
        lists_len(lists.take(upto)) <= lists_len(lists),
    decreases lists.len(),
{
    if upto < lists.len() {
        lemma_lists_len_mono(lists.drop_last(), upto);
        assert(lists.drop_last().take(upto) =~= lists.take(upto));
    } else {
        assert(lists.take(upto) =~= lists);
    }
}

impl Hnsw {
    /// Upper bound on the byte length of this graph's serialization, exact unless
    /// a row holds `Null`s. Sizes a buffer before [`Hnsw::to_bytes_into`].
    pub fn serialized_len_hint(&self) -> (r: usize)
        requires
            self.wf(),
            self@.len_hint() <= usize::MAX,
        ensures
            r == self@.len_hint(),
            r == encode(self@).len() + 8 * null_total(self@.nodes),
    {
        proof {
            the_length_hint_counts_nulls(self@);
        }
        let mut total: usize = HEADER_LEN;
        let mut id: usize = 0;
        assert(self@.nodes.take(0) =~= Seq::<Node>::empty());
        while id < self.len()
            invariant
                self.wf(),
                self@.len_hint() <= usize::MAX,
                id <= self@.nodes.len(),
                total == HEADER_LEN + nodes_len_hint(self@.nodes.take(id as int), self@.dim),
            decreases self@.nodes.len() - id,
        {
            let ghost node = self@.nodes[id as int];
            proof {
                lemma_hint_mono(self@.nodes, self@.dim, id + 1);
                assert(self@.nodes.take(id + 1).drop_last() =~= self@.nodes.take(id as int));
                assert(self@.nodes.take(id + 1).last() == node);
                assert(node.layers.take(0) =~= Seq::<Seq<u32>>::empty());
                assert(self@.node_ok(id as int));
            }
            let start: usize = total + 17 + self.dim() * 4;
            total = start;
            let levels: usize = self.levels(id);
            let mut layer: usize = 0;
            while layer < levels
                invariant
                    self.wf(),
                    id < self@.nodes.len(),
                    node == self@.nodes[id as int],
                    levels == node.layers.len(),
                    layer <= levels,
                    start + lists_len(node.layers) <= usize::MAX,
                    total == start + lists_len(node.layers.take(layer as int)),
                decreases levels - layer,
            {
                proof {
                    lemma_lists_len_mono(node.layers, layer + 1);
                    assert(node.layers.take(layer + 1).drop_last() =~= node.layers.take(
                        layer as int,
                    ));
                    assert(node.layers.take(layer + 1).last() == node.layers[layer as int]);
                }
                total = total + 8 + self.neighbors(id, layer).len() * 8;
                layer += 1;
            }
            assert(node.layers.take(levels as int) =~= node.layers);
            total = total + self.attrs(id).len() * 9;
            id += 1;
        }
        assert(self@.nodes.take(self@.nodes.len() as int) =~= self@.nodes);
        total
    }

    /// Serialize the graph to a self-contained, versioned blob. The generator
    /// state is part of it, so a restored graph goes on inserting exactly as this
    /// one would.
    pub fn to_bytes(&self) -> (out: Vec<u8>)
        requires
            self.wf(),
        ensures
            out@ == encode(self@),
    {
        let mut out: Vec<u8> = Vec::new();
        self.to_bytes_into(&mut out);
        assert(out@ =~= encode(self@));
        out
    }

    /// Append this graph's serialization to `out`.
    pub fn to_bytes_into(&self, out: &mut Vec<u8>)
        requires
            self.wf(),
        ensures
            final(out)@ == old(out)@ + encode(self@),
    {
        self.put_header(out);
        let ghost headed = out@;
        let mut id: usize = 0;
        assert(self@.nodes.skip(0) =~= self@.nodes);
        while id < self.len()
            invariant
                self.wf(),
                id <= self@.nodes.len(),
                out@ + encode_nodes(self@.nodes.skip(id as int)) == headed + encode_nodes(
                    self@.nodes,
                ),
            decreases self@.nodes.len() - id,
        {
            let ghost before = out@;
            let ghost rest = self@.nodes.skip(id as int);
            self.put_node(id, out);
            proof {
                assert(rest[0] == self@.nodes[id as int]);
                assert(rest.drop_first() =~= self@.nodes.skip(id + 1));
                assert(out@ + encode_nodes(rest.drop_first()) =~= before + encode_nodes(rest));
            }
            id += 1;
        }
        proof {
            assert(self@.nodes.skip(self@.nodes.len() as int) =~= Seq::<Node>::empty());
            assert(out@ + encode_nodes(Seq::<Node>::empty()) =~= out@);
            assert(headed + encode_nodes(self@.nodes) =~= old(out)@ + encode(self@));
        }
    }

    fn put_header(&self, out: &mut Vec<u8>)
        requires
            self.wf(),
        ensures
            final(out)@ == old(out)@ + encode_header(self@, 0),
    {
        let entry: u64 = match self.entry_point() {
            Some(e) => e as u64,
            None => u64::MAX,
        };
        put_le(out, CODEC_MAGIC as u64, 4);
        put_le(out, CODEC_VERSION as u64, 2);
        put_le(out, self.metric().code() as u64, 1);
        put_le(out, 0, 1);
        put_le(out, self.m() as u64, 8);
        put_le(out, self.gamma() as u64, 4);
        put_le(out, self.ef_construction() as u64, 8);
        put_le(out, self.dim() as u64, 8);
        put_le(out, self.max_layer() as u64, 8);
        put_le(out, self.seed(), 8);
        put_le(out, self.rng(), 8);
        put_le(out, entry, 8);
        put_le(out, self.len() as u64, 8);
        assert(out@ =~= old(out)@ + encode_header(self@, 0));
    }

    fn put_node(&self, id: usize, out: &mut Vec<u8>)
        requires
            self.wf(),
            id < self@.nodes.len(),
        ensures
            final(out)@ == old(out)@ + encode_node(self@.nodes[id as int]),
    {
        let ghost node = self@.nodes[id as int];
        let flag: u64 = if self.is_deleted(id) { 1 } else { 0 };
        put_le(out, flag, 1);
        let levels: usize = self.levels(id);
        put_le(out, levels as u64, 8);
        put_components(self.vector(id), out);
        let ghost headed = out@;
        let mut layer: usize = 0;
        assert(node.layers.skip(0) =~= node.layers);
        while layer < levels
            invariant
                self.wf(),
                id < self@.nodes.len(),
                node == self@.nodes[id as int],
                levels == node.layers.len(),
                layer <= levels,
                out@ + encode_lists(node.layers.skip(layer as int)) == headed + encode_lists(
                    node.layers,
                ),
            decreases levels - layer,
        {
            let ghost before = out@;
            let ghost rest = node.layers.skip(layer as int);
            let ids = self.neighbors(id, layer);
            put_le(out, ids.len() as u64, 8);
            put_ids(ids, out);
            proof {
                assert(rest[0] == ids@);
                assert(rest.drop_first() =~= node.layers.skip(layer + 1));
                assert(out@ + encode_lists(rest.drop_first()) =~= before + encode_lists(rest));
            }
            layer += 1;
        }
        proof {
            assert(node.layers.skip(levels as int) =~= Seq::<Seq<u32>>::empty());
            assert(out@ + encode_lists(Seq::<Seq<u32>>::empty()) =~= out@);
        }
        let row = self.attrs(id);
        put_le(out, row.len() as u64, 8);
        put_values(row, out);
        assert(out@ =~= old(out)@ + encode_node(node));
    }
}

fn put_components(v: &[u32], out: &mut Vec<u8>)
    ensures
        final(out)@ == old(out)@ + encode_components(v@),
{
    let mut i: usize = 0;
    assert(v@.skip(0) =~= v@);
    while i < v.len()
        invariant
            i <= v@.len(),
            out@ + encode_components(v@.skip(i as int)) == old(out)@ + encode_components(v@),
        decreases v@.len() - i,
    {
        let ghost before = out@;
        let ghost rest = v@.skip(i as int);
        put_le(out, v[i] as u64, 4);
        proof {
            assert(rest.drop_first() =~= v@.skip(i + 1));
            assert(out@ + encode_components(rest.drop_first()) =~= before + encode_components(
                rest,
            ));
        }
        i += 1;
    }
    assert(v@.skip(v@.len() as int) =~= Seq::<u32>::empty());
    assert(out@ + encode_components(Seq::<u32>::empty()) =~= out@);
}

fn put_ids(ids: &[u32], out: &mut Vec<u8>)
    ensures
        final(out)@ == old(out)@ + encode_ids(ids@),
{
    let mut i: usize = 0;
    assert(ids@.skip(0) =~= ids@);
    while i < ids.len()
        invariant
            i <= ids@.len(),
            out@ + encode_ids(ids@.skip(i as int)) == old(out)@ + encode_ids(ids@),
        decreases ids@.len() - i,
    {
        let ghost before = out@;
        let ghost rest = ids@.skip(i as int);
        put_le(out, ids[i] as u64, 8);
        proof {
            assert(rest.drop_first() =~= ids@.skip(i + 1));
            assert(out@ + encode_ids(rest.drop_first()) =~= before + encode_ids(rest));
        }
        i += 1;
    }
    assert(ids@.skip(ids@.len() as int) =~= Seq::<u32>::empty());
    assert(out@ + encode_ids(Seq::<u32>::empty()) =~= out@);
}

/// The unsigned number with the bits of an `i64`.
fn to_unsigned(v: i64) -> (r: u64)
    ensures
        r == unsigned(v),
{
    if v < 0 {
        (v as i128 + 0x1_0000_0000_0000_0000i128) as u64
    } else {
        v as u64
    }
}

/// The `i64` with the bits of an unsigned number.
fn to_signed(v: u64) -> (r: i64)
    ensures
        r == signed(v as nat),
{
    if v >= 0x8000_0000_0000_0000u64 {
        (v as i128 - 0x1_0000_0000_0000_0000i128) as i64
    } else {
        v as i64
    }
}

pub(crate) fn put_values(row: &[AttrValue], out: &mut Vec<u8>)
    ensures
        final(out)@ == old(out)@ + encode_values(row@),
{
    let mut i: usize = 0;
    assert(row@.skip(0) =~= row@);
    while i < row.len()
        invariant
            i <= row@.len(),
            out@ + encode_values(row@.skip(i as int)) == old(out)@ + encode_values(row@),
        decreases row@.len() - i,
    {
        let ghost before = out@;
        let ghost rest = row@.skip(i as int);
        match row[i] {
            AttrValue::Null => {
                put_le(out, ATTR_TAG_NULL as u64, 1);
            },
            AttrValue::Int(v) => {
                put_le(out, ATTR_TAG_INT as u64, 1);
                put_le(out, to_unsigned(v), 8);
            },
            AttrValue::Float(bits) => {
                put_le(out, ATTR_TAG_FLOAT as u64, 1);
                put_le(out, bits, 8);
            },
        }
        proof {
            assert(out@ =~= before + encode_value(row@[i as int]));
            assert(rest.drop_first() =~= row@.skip(i + 1));
            assert(out@ + encode_values(rest.drop_first()) =~= before + encode_values(rest));
        }
        i += 1;
    }
    assert(row@.skip(row@.len() as int) =~= Seq::<AttrValue>::empty());
    assert(out@ + encode_values(Seq::<AttrValue>::empty()) =~= out@);
}

/// A source that has been read from `start` bytes on, without trouble.
pub open spec fn reading<S: GraphBytes + ?Sized>(src: &S, bytes: Seq<u8>, extra: nat) -> bool {
    &&& src.readable()
    &&& src.bytes() == bytes
    &&& src.declared() == bytes.len() + extra
}

/// Reading on from the middle of some bytes.
proof fn lemma_skip(b: Seq<u8>, at: int, width: int)
    requires
        0 <= at,
        0 <= width,
        at + width <= b.len(),
    ensures
        b.skip(at).take(width) == b.subrange(at, at + width),
        b.skip(at).skip(width) == b.skip(at + width),
{
    assert(b.skip(at).take(width) =~= b.subrange(at, at + width));
    assert(b.skip(at).skip(width) =~= b.skip(at + width));
}

/// Read the rest of `left` neighbor ids.
fn read_ids<S: GraphBytes + ?Sized>(src: &mut S, Ghost(extra): Ghost<nat>, count: usize, n: usize) -> (r:
    Result<Vec<u32>, HnswDecodeError>)
    requires
        reading(old(src), old(src).bytes(), extra),
    ensures
        r is Ok ==> final(src).beyond() == old(src).beyond(),
        match (r, parse_ids(old(src).bytes(), count as nat, n as nat, Seq::empty())) {
            (Ok(v), Ok((ids, rest))) => v@ == ids && reading(final(src), rest, extra),
            (Err(e), Err(f)) => e == f,
            _ => false,
        },
{
    let ghost goal = parse_ids(src.bytes(), count as nat, n as nat, Seq::empty());
    let mut out: Vec<u32> = Vec::new();
    let mut left: usize = count;
    while left > 0
        invariant
            reading(src, src.bytes(), extra),
            src.beyond() == old(src).beyond(),
            goal == parse_ids(old(src).bytes(), count as nat, n as nat, Seq::empty()),
            goal == parse_ids(src.bytes(), left as nat, n as nat, out@),
        decreases left,
    {
        let id: usize = src.read_len()?;
        if id >= n {
            return Err(HnswDecodeError::Invalid("link target out of range"));
        }
        out.push(#[verifier::truncate] (id as u32));
        left = left - 1;
    }
    Ok(out)
}

/// Read one neighbor list of at most `cap` ids.
fn read_list<S: GraphBytes + ?Sized>(
    src: &mut S,
    Ghost(fr): Ghost<Frame>,
    layer: usize,
    cap: usize,
    n: usize,
) -> (r: Result<Vec<u32>, HnswDecodeError>)
    requires
        reading(old(src), old(src).bytes(), fr.extra),
        cap == fr.header.cap(layer as int),
        n == fr.n,
    ensures
        r is Ok ==> final(src).beyond() == old(src).beyond(),
        match (r, parse_list(old(src).bytes(), fr, layer as int)) {
            (Ok(v), Ok((ids, rest))) => v@ == ids && reading(final(src), rest, fr.extra),
            (Err(e), Err(f)) => e == f,
            _ => false,
        },
{
    let count: usize = src.read_len()?;
    if count > cap {
        return Err(HnswDecodeError::Invalid("neighbor list over degree cap"));
    }
    if count > src.remaining() / 8 {
        return Err(HnswDecodeError::Truncated);
    }
    read_ids(src, Ghost(fr.extra), count, n)
}

/// Neighbor lists as sequences.
pub open spec fn list_views(lists: Seq<Vec<u32>>) -> Seq<Seq<u32>> {
    Seq::new(lists.len(), |i: int| lists[i]@)
}

/// Read the neighbor lists of `levels` layers.
fn read_lists<S: GraphBytes + ?Sized>(
    src: &mut S,
    Ghost(fr): Ghost<Frame>,
    levels: usize,
    m0_cap: usize,
    m_cap: usize,
    n: usize,
) -> (r: Result<Vec<Vec<u32>>, HnswDecodeError>)
    requires
        reading(old(src), old(src).bytes(), fr.extra),
        m0_cap == fr.header.cap(0),
        m_cap == fr.header.cap(1),
        n == fr.n,
    ensures
        r is Ok ==> final(src).beyond() == old(src).beyond(),
        match (r, parse_lists(old(src).bytes(), fr, levels as nat, Seq::empty())) {
            (Ok(v), Ok((lists, rest))) => list_views(v@) == lists && reading(
                final(src),
                rest,
                fr.extra,
            ),
            (Err(e), Err(f)) => e == f,
            _ => false,
        },
{
    let ghost goal = parse_lists(src.bytes(), fr, levels as nat, Seq::empty());
    let mut out: Vec<Vec<u32>> = Vec::new();
    assert(list_views(out@) =~= Seq::<Seq<u32>>::empty());
    while out.len() < levels
        invariant
            reading(src, src.bytes(), fr.extra),
            src.beyond() == old(src).beyond(),
            m0_cap == fr.header.cap(0),
            m_cap == fr.header.cap(1),
            n == fr.n,
            out@.len() <= levels,
            goal == parse_lists(old(src).bytes(), fr, levels as nat, Seq::empty()),
            goal == parse_lists(src.bytes(), fr, levels as nat, list_views(out@)),
        decreases levels - out@.len(),
    {
        let layer: usize = out.len();
        let ghost before = out@;
        let list = read_list(
            src,
            Ghost(fr),
            layer,
            if layer == 0 {
                m0_cap
            } else {
                m_cap
            },
            n,
        )?;
        out.push(list);
        assert(list_views(out@) =~= list_views(before).push(list@));
    }
    Ok(out)
}

/// Read a vector of `dim` components.
fn read_components<S: GraphBytes + ?Sized>(src: &mut S, Ghost(extra): Ghost<nat>, dim: usize) -> (r:
    Result<Vec<u32>, HnswDecodeError>)
    requires
        reading(old(src), old(src).bytes(), extra),
    ensures
        r is Ok ==> final(src).beyond() == old(src).beyond(),
        match (r, parse_components(old(src).bytes(), dim as nat, Seq::empty())) {
            (Ok(v), Ok((x, rest))) => {
                &&& v@ == x
                &&& v@.len() == dim
                &&& reading(final(src), rest, extra)
                &&& rest.len() == old(src).bytes().len() - 4 * dim
            },
            (Err(e), Err(f)) => e == f,
            _ => false,
        },
{
    let ghost goal = parse_components(src.bytes(), dim as nat, Seq::empty());
    let mut out: Vec<u32> = Vec::new();
    let mut left: usize = dim;
    while left > 0
        invariant
            reading(src, src.bytes(), extra),
            src.beyond() == old(src).beyond(),
            goal == parse_components(old(src).bytes(), dim as nat, Seq::empty()),
            goal == parse_components(src.bytes(), left as nat, out@),
            out@.len() + left == dim,
            src.bytes().len() == old(src).bytes().len() - 4 * out@.len(),
        decreases left,
    {
        let x: u32 = src.u32()?;
        out.push(x);
        left = left - 1;
    }
    Ok(out)
}

/// Read one attribute value.
fn read_value<S: GraphBytes + ?Sized>(src: &mut S, Ghost(extra): Ghost<nat>) -> (r: Result<
    AttrValue,
    HnswDecodeError,
>)
    requires
        reading(old(src), old(src).bytes(), extra),
    ensures
        r is Ok ==> final(src).beyond() == old(src).beyond(),
        match (r, parse_value(old(src).bytes())) {
            (Ok(v), Ok((x, rest))) => v == x && reading(final(src), rest, extra),
            (Err(e), Err(f)) => e == f,
            _ => false,
        },
{
    let tag: u8 = src.u8()?;
    if tag == ATTR_TAG_NULL {
        Ok(AttrValue::Null)
    } else if tag == ATTR_TAG_INT {
        let v: u64 = src.u64()?;
        Ok(AttrValue::Int(to_signed(v)))
    } else if tag == ATTR_TAG_FLOAT {
        let v: u64 = src.u64()?;
        Ok(AttrValue::Float(v))
    } else {
        Err(HnswDecodeError::Invalid("bad attribute tag"))
    }
}

/// Read an attribute row.
pub(crate) fn read_row<S: GraphBytes + ?Sized>(src: &mut S, Ghost(extra): Ghost<nat>) -> (r: Result<
    Vec<AttrValue>,
    HnswDecodeError,
>)
    requires
        reading(old(src), old(src).bytes(), extra),
    ensures
        r is Ok ==> final(src).beyond() == old(src).beyond(),
        match (r, parse_row(old(src).bytes(), extra)) {
            (Ok(v), Ok((x, rest))) => v@ == x && reading(final(src), rest, extra),
            (Err(e), Err(f)) => e == f,
            _ => false,
        },
{
    let count: usize = src.read_len()?;
    if count > src.remaining() {
        return Err(HnswDecodeError::Truncated);
    }
    let ghost goal = parse_row(old(src).bytes(), extra);
    let mut out: Vec<AttrValue> = Vec::new();
    let mut left: usize = count;
    while left > 0
        invariant
            reading(src, src.bytes(), extra),
            src.beyond() == old(src).beyond(),
            goal == parse_row(old(src).bytes(), extra),
            goal == parse_values(src.bytes(), left as nat, out@),
        decreases left,
    {
        let v = read_value(src, Ghost(extra))?;
        out.push(v);
        left = left - 1;
    }
    Ok(out)
}

/// Read a tombstone flag.
fn read_flag<S: GraphBytes + ?Sized>(src: &mut S, Ghost(extra): Ghost<nat>) -> (r: Result<
    bool,
    HnswDecodeError,
>)
    requires
        reading(old(src), old(src).bytes(), extra),
    ensures
        r is Ok ==> final(src).beyond() == old(src).beyond(),
        match (r, parse_flag(old(src).bytes())) {
            (Ok(v), Ok((x, rest))) => v == x && reading(final(src), rest, extra) && rest.len()
                <= old(src).bytes().len(),
            (Err(e), Err(f)) => e == f,
            _ => false,
        },
{
    let flag: u8 = src.u8()?;
    if flag > 1 {
        return Err(HnswDecodeError::Invalid("bad tombstone flag"));
    }
    Ok(flag == 1)
}

/// Read a node's layer count.
fn read_levels<S: GraphBytes + ?Sized>(
    src: &mut S,
    Ghost(extra): Ghost<nat>,
    max_layer: usize,
) -> (r: Result<usize, HnswDecodeError>)
    requires
        reading(old(src), old(src).bytes(), extra),
    ensures
        r is Ok ==> final(src).beyond() == old(src).beyond(),
        match (r, parse_levels(old(src).bytes(), max_layer as nat)) {
            (Ok(v), Ok((x, rest))) => {
                &&& v == x
                &&& 1 <= v <= max_layer + 1
                &&& reading(final(src), rest, extra)
                &&& rest.len() <= old(src).bytes().len()
            },
            (Err(e), Err(f)) => e == f,
            _ => false,
        },
{
    let levels: usize = src.read_len()?;
    if levels == 0 {
        return Err(HnswDecodeError::Invalid("node with no layers"));
    }
    if levels - 1 > max_layer {
        return Err(HnswDecodeError::Invalid("node above the top layer"));
    }
    Ok(levels)
}

impl Hnsw {
    /// A graph being decoded: the header's parameters and the nodes read so far.
    spec fn decoding(&self, fr: Frame, nodes: Seq<Node>) -> bool {
        &&& self.stored()
        &&& self@ == (Graph { entry_point: None, max_layer: 0, nodes, ..fr.header })
    }

    /// Whether a node of `levels` layers may be added once `remaining` bytes are
    /// left after its vector.
    fn check_room(
        &self,
        Ghost(fr): Ghost<Frame>,
        Ghost(nodes): Ghost<Seq<Node>>,
        layers: usize,
        levels: usize,
        remaining: usize,
        max_slots: usize,
    ) -> (r: Result<(), HnswDecodeError>)
        requires
            self.decoding(fr, nodes),
            layers == layers_of(nodes),
            1 <= levels <= HnswParams::MAX_LAYER + 1,
            max_slots == fr.max_slots,
            fr.header.cap(0) <= 0x200_0000,
            fr.header.cap(1) <= 0x200_0000,
        ensures
            match room_fault(fr, nodes.len(), layers as nat, levels as nat, remaining as nat) {
                None => r == Ok::<(), HnswDecodeError>(()),
                Some(e) => r == Err::<(), HnswDecodeError>(e),
            },
    {
        if levels > remaining / 8 {
            return Err(HnswDecodeError::Truncated);
        }
        proof {
            self.lemma_fits();
            self.lemma_node_count();
        }
        if levels > u32::MAX as usize || layers > u32::MAX as usize - levels {
            return Err(HnswDecodeError::Invalid("too many layers"));
        }
        let slot0: usize = self.max_degree(0) + 1;
        let slot_up: usize = self.max_degree(1) + 1;
        let ghost n = nodes.len() as int;
        proof {
            assert((n + 1) * slot0 == n * slot0 + slot0) by (nonlinear_arith);
            assert((layers + levels - (n + 1)) * slot_up == (layers - n) * slot_up + (levels - 1)
                * slot_up) by (nonlinear_arith);
            assert((levels - 1) * slot_up <= 64 * 0x200_0001) by (nonlinear_arith)
                requires
                    1 <= levels <= 65,
                    slot_up <= 0x200_0001,
                    slot_up >= 0,
            ;
        }
        let node_slots: usize = slot0 + (levels - 1) * slot_up;
        let start: usize = self.slot_total();
        if node_slots > max_slots || start > max_slots - node_slots {
            return Err(
                HnswDecodeError::Invalid("link storage exceeds what the payload could describe"),
            );
        }
        Ok(())
    }

    /// Read one node and append it.
    fn read_node<S: GraphBytes + ?Sized>(
        &mut self,
        src: &mut S,
        Ghost(fr): Ghost<Frame>,
        Ghost(nodes): Ghost<Seq<Node>>,
        n: usize,
        layers: usize,
        max_layer: usize,
        max_slots: usize,
    ) -> (r: Result<usize, HnswDecodeError>)
        requires
            old(self).decoding(fr, nodes),
            reading(old(src), old(src).bytes(), fr.extra),
            nodes.len() < n,
            n == fr.n,
            layers == layers_of(nodes),
            nodes.len() <= layers,
            max_layer == fr.header.max_layer,
            max_layer <= HnswParams::MAX_LAYER,
            max_slots == fr.max_slots,
            fr.header.cap(0) <= 0x200_0000,
            fr.header.cap(1) <= 0x200_0000,
            nodes.len() * fr.header.dim * 4 + old(src).declared() <= usize::MAX,
        ensures
            r is Ok ==> final(src).beyond() == old(src).beyond(),
            match (r, parse_node(old(src).bytes(), fr, nodes.len(), layers as nat)) {
                (Ok(total), Ok((node, rest))) => {
                    &&& final(self).decoding(fr, nodes.push(node))
                    &&& reading(final(src), rest, fr.extra)
                    &&& total == layers_of(nodes.push(node))
                    &&& nodes.len() + 1 <= total
                    &&& (nodes.len() + 1) * fr.header.dim * 4 + rest.len() + fr.extra
                        <= usize::MAX
                },
                (Err(e), Err(f)) => e == f,
                _ => false,
            },
    {
        let ghost b0 = src.bytes();
        let ghost extra = fr.extra;
        let dim: usize = self.dim();
        let deleted = read_flag(src, Ghost(extra))?;
        let levels: usize = read_levels(src, Ghost(extra), max_layer)?;
        let vector = read_components(src, Ghost(extra), dim)?;
        let ghost b3 = src.bytes();
        self.check_room(
            Ghost(fr),
            Ghost(nodes),
            layers,
            levels,
            src.remaining(),
            max_slots,
        )?;
        let m0_cap: usize = self.max_degree(0);
        let m_cap: usize = self.max_degree(1);
        let lists = read_lists(src, Ghost(fr), levels, m0_cap, m_cap, n)?;
        let ghost b4 = src.bytes();
        let attrs = read_row(src, Ghost(extra))?;
        proof {
            lemma_parse_lists_shape(b3, fr, levels as nat, Seq::empty());
            lemma_parse_row_shrinks(b4, extra);
            let count = nodes.len();
            assert((count + 1) * fr.header.dim * 4 == count * fr.header.dim * 4 + 4
                * fr.header.dim) by (nonlinear_arith);
            assert((count + 1) * fr.header.dim <= usize::MAX) by (nonlinear_arith)
                requires
                    (count + 1) * fr.header.dim * 4 <= usize::MAX,
                    count >= 0,
            ;
            self.lemma_node_count();
            assert(count < Self::MAX_NODES);
        }
        let ghost row = attrs@;
        let ghost base = self@;
        let id: usize = match self.push_node(vector.as_slice(), attrs, levels) {
            Ok(id) => id,
            Err(_) => {
                return Err(HnswDecodeError::Truncated);
            },
        };
        let ghost views = list_views(lists@);
        let mut layer: usize = 0;
        proof {
            assert(partial(views, 0) =~= Seq::new(levels as nat, |l: int| Seq::<u32>::empty()));
        }
        while layer < levels
            invariant
                self.stored(),
                levels == lists@.len(),
                views == list_views(lists@),
                layer <= levels,
                id == nodes.len(),
                base.nodes == nodes,
                base.cap(0) <= 0x200_0000,
                base.cap(1) <= 0x200_0000,
                forall|l: int|
                    0 <= l < levels ==> (#[trigger] views[l]).len() <= base.cap(l),
                self@ == (Graph {
                    nodes: nodes.push(
                        Node {
                            vector: vector@,
                            layers: partial(views, layer as int),
                            attrs: row,
                            deleted: false,
                        },
                    ),
                    ..base
                }),
            decreases levels - layer,
        {
            let ghost before = self@;
            assert(views[layer as int] == lists@[layer as int]@);
            self.set_neighbors(id, layer, lists[layer].as_slice());
            proof {
                assert(partial(views, layer as int).update(layer as int, views[layer as int])
                    =~= partial(views, layer + 1));
                assert(self@.nodes =~= nodes.push(
                    Node {
                        vector: vector@,
                        layers: partial(views, layer + 1),
                        attrs: row,
                        deleted: false,
                    },
                ));
            }
            layer += 1;
        }
        proof {
            assert(partial(views, levels as int) =~= views);
        }
        if deleted {
            self.mark_deleted(id);
        }
        proof {
            let node = Node { vector: vector@, layers: views, attrs: row, deleted };
            assert(self@.nodes =~= nodes.push(node));
            assert(nodes.push(node).drop_last() =~= nodes);
        }
        Ok(layers + levels)
    }
}

/// The first `upto` lists, and empty ones for the rest.
spec fn partial(lists: Seq<Seq<u32>>, upto: int) -> Seq<Seq<u32>> {
    Seq::new(
        lists.len(),
        |l: int|
            if l < upto {
                lists[l]
            } else {
                Seq::empty()
            },
    )
}

proof fn lemma_parse_ids_shape(b: Seq<u8>, left: nat, n: nat, done: Seq<u32>)
    ensures
        parse_ids(b, left, n, done) matches Ok((ids, rest)) ==> {
            &&& ids.len() == done.len() + left
            &&& rest.len() == b.len() - 8 * left
            &&& ids.take(done.len() as int) == done
            &&& n <= u32::MAX ==> forall|i: int|
                done.len() <= i < ids.len() ==> (#[trigger] ids[i]) < n
        },
    decreases left,
{
    if left > 0 {
        if let Ok((id, rest)) = take_len(b) {
            if id < n {
                let more = done.push(id as u32);
                lemma_parse_ids_shape(rest, (left - 1) as nat, n, more);
                if let Ok((ids, tail)) = parse_ids(rest, (left - 1) as nat, n, more) {
                    assert(ids.take(done.len() as int) =~= done) by {
                        assert(ids.take(more.len() as int).take(done.len() as int) =~= done);
                    }
                    assert(ids[done.len() as int] == ids.take(more.len() as int)[done.len() as int]);
                }
            }
        }
    } else {
        assert(done.take(done.len() as int) =~= done);
    }
}

/// Lists that were read are as many as announced, within their caps, and name
/// nodes of the graph.
pub proof fn lemma_parse_lists_shape(b: Seq<u8>, fr: Frame, levels: nat, done: Seq<Seq<u32>>)
    requires
        done.len() <= levels,
    ensures
        parse_lists(b, fr, levels, done) matches Ok((lists, rest)) ==> {
            &&& lists.len() == levels
            &&& rest.len() <= b.len()
            &&& lists.take(done.len() as int) == done
            &&& forall|l: int|
                done.len() <= l < levels ==> (#[trigger] lists[l]).len() <= fr.header.cap(l)
            &&& fr.n <= u32::MAX ==> forall|l: int, i: int|
                done.len() <= l < levels && 0 <= i < lists[l].len() ==> (#[trigger] lists[l][i])
                    < fr.n
        },
    decreases levels - done.len(),
{
    if done.len() < levels {
        if let Ok((list, rest)) = parse_list(b, fr, done.len() as int) {
            let count = take_len(b)->Ok_0.0;
            lemma_parse_ids_shape(take_len(b)->Ok_0.1, count, fr.n, Seq::empty());
            let more = done.push(list);
            lemma_parse_lists_shape(rest, fr, levels, more);
            if let Ok((lists, tail)) = parse_lists(rest, fr, levels, more) {
                assert(lists.take(done.len() as int) =~= done) by {
                    assert(lists.take(more.len() as int).take(done.len() as int) =~= done);
                }
                assert(lists[done.len() as int] == lists.take(more.len() as int)[done.len() as int]);
            }
        }
    } else {
        assert(done.take(done.len() as int) =~= done);
    }
}

proof fn lemma_parse_values_shape(b: Seq<u8>, left: nat, done: Seq<AttrValue>)
    ensures
        parse_values(b, left, done) matches Ok((row, rest)) ==> {
            &&& row.len() == done.len() + left
            &&& rest.len() <= b.len()
        },
    decreases left,
{
    if left > 0 {
        if let Ok((v, rest)) = parse_value(b) {
            lemma_parse_values_shape(rest, (left - 1) as nat, done.push(v));
        }
    }
}

/// Reading a row uses bytes up.
pub proof fn lemma_parse_row_shrinks(b: Seq<u8>, extra: nat)
    ensures
        parse_row(b, extra) matches Ok((row, rest)) ==> rest.len() <= b.len() && row.len()
            <= usize::MAX,
{
    if let Ok((count, rest)) = take_len(b) {
        lemma_parse_values_shape(rest, count, Seq::empty());
    }
}

/// What a header announces.
struct Header {
    metric: Metric,
    m: usize,
    gamma: u32,
    ef_construction: usize,
    dim: usize,
    max_layer: usize,
    seed: u64,
    rng: u64,
    entry_point: Option<usize>,
    n: usize,
}

impl Header {
    /// The fields are those of the header at the start of `b`.
    spec fn reads(self, b: Seq<u8>) -> bool {
        &&& header_graph(b) == (Graph {
            metric: self.metric,
            m: self.m as nat,
            gamma: self.gamma,
            ef_construction: self.ef_construction as nat,
            dim: self.dim as nat,
            seed: self.seed,
            rng: self.rng,
            entry_point: self.entry_point,
            max_layer: self.max_layer as nat,
            nodes: Seq::empty(),
        })
        &&& self.n == field(b, 68, 8)
    }

    /// Read magic, version, metric and the reserved byte.
    fn read_kind<S: GraphBytes + ?Sized>(src: &mut S, Ghost(extra): Ghost<nat>) -> (r: Result<
        Metric,
        HnswDecodeError,
    >)
        requires
            reading(old(src), old(src).bytes(), extra),
        ensures
            r is Ok ==> final(src).beyond() == old(src).beyond(),
            ({
                let b = old(src).bytes();
                match r {
                    Ok(metric) => {
                        &&& b.len() >= 8
                        &&& field(b, 0, 4) == CODEC_MAGIC
                        &&& field(b, 4, 2) == CODEC_VERSION
                        &&& Metric::spec_from_code(field(b, 6, 1) as u8) == Some(metric)
                        &&& reading(final(src), b.skip(8), extra)
                    },
                    Err(e) => header_fault(b) == Some(e),
                }
            }),
    {
        let ghost b = src.bytes();
        proof {
            if b.len() >= 4 {
                lemma_skip(b, 0, 4);
            }
            if b.len() >= 6 {
                lemma_skip(b, 4, 2);
            }
            if b.len() >= 7 {
                lemma_skip(b, 6, 1);
            }
            if b.len() >= 8 {
                lemma_skip(b, 7, 1);
            }
            assert(b.skip(0) =~= b);
        }
        let magic: u32 = src.u32()?;
        if magic != CODEC_MAGIC {
            return Err(HnswDecodeError::BadMagic);
        }
        let version: u16 = src.u16()?;
        if version != CODEC_VERSION {
            return Err(HnswDecodeError::UnsupportedVersion { got: version });
        }
        let code: u8 = src.u8()?;
        let metric = match Metric::from_code(code) {
            Some(metric) => metric,
            None => {
                return Err(HnswDecodeError::Invalid("unknown metric code"));
            },
        };
        let reserved: u8 = src.u8()?;
        Ok(metric)
    }

    /// Read base degree, density and candidate pool.
    fn read_shape<S: GraphBytes + ?Sized>(
        src: &mut S,
        Ghost(b): Ghost<Seq<u8>>,
        Ghost(extra): Ghost<nat>,
        metric: Metric,
    ) -> (r: Result<(usize, u32, usize), HnswDecodeError>)
        requires
            b.len() >= 8,
            field(b, 0, 4) == CODEC_MAGIC,
            field(b, 4, 2) == CODEC_VERSION,
            Metric::spec_from_code(field(b, 6, 1) as u8) == Some(metric),
            reading(old(src), b.skip(8), extra),
        ensures
            r is Ok ==> final(src).beyond() == old(src).beyond(),
            match r {
                Ok((m, gamma, ef)) => {
                    &&& b.len() >= 28
                    &&& m == field(b, 8, 8)
                    &&& 2 <= m <= HnswParams::MAX_M
                    &&& gamma == field(b, 16, 4) as u32
                    &&& gamma_in_range(gamma)
                    &&& degree_cap((2 * m) as nat, gamma) <= HnswParams::MAX_LAYER0_DEGREE
                    &&& ef == field(b, 20, 8)
                    &&& ef >= ef_floor(m as nat, gamma)
                    &&& reading(final(src), b.skip(28), extra)
                },
                Err(e) => header_fault(b) == Some(e),
            },
    {
        proof {
            if b.len() >= 16 {
                lemma_skip(b, 8, 8);
            }
            if b.len() >= 20 {
                lemma_skip(b, 16, 4);
            }
            if b.len() >= 28 {
                lemma_skip(b, 20, 8);
            }
        }
        let m: usize = src.read_len()?;
        if m < 2 || m > HnswParams::MAX_M {
            return Err(HnswDecodeError::Invalid("m out of range"));
        }
        let gamma: u32 = src.u32()?;
        if gamma < crate::floats::F32_ONE || gamma > HnswParams::MAX_GAMMA {
            return Err(HnswDecodeError::Invalid("gamma out of range"));
        }
        proof {
            super::params::clamping_keeps_what_is_in_range(gamma);
        }
        let (_, _, m0_cap, floor) = derived_params(m, gamma);
        if m0_cap > HnswParams::MAX_LAYER0_DEGREE {
            return Err(HnswDecodeError::Invalid("degree cap out of range"));
        }
        let ef: usize = src.read_len()?;
        if ef < floor {
            return Err(HnswDecodeError::Invalid("ef_construction below floor"));
        }
        Ok((m, gamma, ef))
    }

    /// Read a header.
    fn read<S: GraphBytes + ?Sized>(src: &mut S, Ghost(extra): Ghost<nat>) -> (r: Result<
        Header,
        HnswDecodeError,
    >)
        requires
            reading(old(src), old(src).bytes(), extra),
        ensures
            r is Ok ==> final(src).beyond() == old(src).beyond(),
            match r {
                Ok(h) => {
                    &&& header_fault(old(src).bytes()) is None
                    &&& h.reads(old(src).bytes())
                    &&& reading(final(src), old(src).bytes().skip(HEADER_LEN as int), extra)
                    &&& old(src).bytes().len() >= HEADER_LEN
                },
                Err(e) => header_fault(old(src).bytes()) == Some(e),
            },
    {
        let ghost b = src.bytes();
        let metric = Self::read_kind(src, Ghost(extra))?;
        let (m, gamma, ef_construction) = Self::read_shape(src, Ghost(b), Ghost(extra), metric)?;
        proof {
            if b.len() >= 36 {
                lemma_skip(b, 28, 8);
            }
            if b.len() >= 44 {
                lemma_skip(b, 36, 8);
            }
            if b.len() >= 52 {
                lemma_skip(b, 44, 8);
            }
            if b.len() >= 60 {
                lemma_skip(b, 52, 8);
            }
            if b.len() >= 68 {
                lemma_skip(b, 60, 8);
            }
            if b.len() >= 76 {
                lemma_skip(b, 68, 8);
            }
        }
        let dim: usize = src.read_len()?;
        if dim > HnswParams::MAX_DIM {
            return Err(HnswDecodeError::Invalid("dimension out of range"));
        }
        let max_layer: usize = src.read_len()?;
        if max_layer > HnswParams::MAX_LAYER {
            return Err(HnswDecodeError::Invalid("top layer out of range"));
        }
        let seed: u64 = src.u64()?;
        let rng: u64 = src.u64()?;
        if seed == 0 || rng == 0 {
            return Err(HnswDecodeError::Invalid("PRNG state must be nonzero"));
        }
        let entry_raw: u64 = src.u64()?;
        let n: usize = src.read_len()?;
        let entry_point: Option<usize> = if entry_raw == u64::MAX {
            None
        } else {
            if entry_raw >= n as u64 {
                return Err(HnswDecodeError::Invalid("entry point out of range"));
            }
            Some(entry_raw as usize)
        };
        if n > 0 && entry_point.is_none() {
            return Err(HnswDecodeError::Invalid("nonempty graph without entry point"));
        }
        if n > 0 && dim == 0 {
            return Err(HnswDecodeError::Invalid("nonempty graph with zero dimension"));
        }
        Ok(Header { metric, m, gamma, ef_construction, dim, max_layer, seed, rng, entry_point, n })
    }
}

/// A node that was read is a proper node of the graph being read.
proof fn lemma_parse_node_ok(b: Seq<u8>, fr: Frame, nodes: nat, layers: nat)
    ensures
        parse_node(b, fr, nodes, layers) matches Ok((node, rest)) ==> {
            &&& node.vector.len() == fr.header.dim
            &&& 1 <= node.layers.len() <= fr.header.max_layer + 1
            &&& forall|l: int|
                0 <= l < node.layers.len() ==> (#[trigger] node.layers[l]).len()
                    <= fr.header.cap(l)
            &&& fr.n <= u32::MAX ==> forall|l: int, i: int|
                0 <= l < node.layers.len() && 0 <= i < node.layers[l].len()
                    ==> (#[trigger] node.layers[l][i]) < fr.n
            &&& layers + node.layers.len() <= u32::MAX
            &&& node.attrs.len() <= usize::MAX
        },
{
    if let Ok((deleted, b1)) = parse_flag(b) {
        if let Ok((levels, b2)) = parse_levels(b1, fr.header.max_layer) {
            lemma_parse_components_shape(b2, fr.header.dim, Seq::empty());
            if let Ok((vector, b3)) = parse_components(b2, fr.header.dim, Seq::empty()) {
                lemma_parse_lists_shape(b3, fr, levels, Seq::empty());
                if let Ok((lists, b4)) = parse_lists(b3, fr, levels, Seq::empty()) {
                    lemma_parse_row_shrinks(b4, fr.extra);
                }
            }
        }
    }
}

proof fn lemma_parse_components_shape(b: Seq<u8>, left: nat, done: Seq<u32>)
    ensures
        parse_components(b, left, done) matches Ok((x, rest)) ==> x.len() == done.len() + left,
    decreases left,
{
    if left > 0 {
        if let Ok((x, rest)) = take_le(b, 4) {
            lemma_parse_components_shape(rest, (left - 1) as nat, done.push(x as u32));
        }
    }
}

/// Every node read so far is a proper node of the graph being read.
pub open spec fn nodes_ok(fr: Frame, nodes: Seq<Node>) -> bool {
    forall|k: int|
        0 <= k < nodes.len() ==> {
            let node = #[trigger] nodes[k];
            &&& node.vector.len() == fr.header.dim
            &&& 1 <= node.layers.len() <= fr.header.max_layer + 1
            &&& node.attrs.len() <= usize::MAX
            &&& forall|l: int|
                0 <= l < node.layers.len() ==> (#[trigger] node.layers[l]).len()
                    <= fr.header.cap(l)
            &&& fr.n <= u32::MAX ==> forall|l: int, i: int|
                0 <= l < node.layers.len() && 0 <= i < node.layers[l].len()
                    ==> (#[trigger] node.layers[l][i]) < fr.n
        }
}

/// Nodes that were read are as many as announced, and proper.
pub proof fn lemma_parse_nodes_ok(b: Seq<u8>, fr: Frame, done: Seq<Node>)
    requires
        nodes_ok(fr, done),
        done.len() <= fr.n,
        layers_of(done) <= u32::MAX,
        done.len() <= layers_of(done),
    ensures
        parse_nodes(b, fr, done) matches Ok((nodes, rest)) ==> {
            &&& nodes.len() == fr.n
            &&& nodes_ok(fr, nodes)
            &&& layers_of(nodes) <= u32::MAX
            &&& nodes.len() <= layers_of(nodes)
        },
    decreases fr.n - done.len(),
{
    if done.len() < fr.n {
        if let Ok((node, rest)) = parse_node(b, fr, done.len(), layers_of(done)) {
            lemma_parse_node_ok(b, fr, done.len(), layers_of(done));
            let more = done.push(node);
            assert(more.drop_last() =~= done);
            assert(nodes_ok(fr, more)) by {
                assert forall|k: int| 0 <= k < more.len() implies {
                    let x = #[trigger] more[k];
                    &&& x.vector.len() == fr.header.dim
                    &&& 1 <= x.layers.len() <= fr.header.max_layer + 1
                    &&& x.attrs.len() <= usize::MAX
                    &&& forall|l: int|
                        0 <= l < x.layers.len() ==> (#[trigger] x.layers[l]).len()
                            <= fr.header.cap(l)
                    &&& fr.n <= u32::MAX ==> forall|l: int, i: int|
                        0 <= l < x.layers.len() && 0 <= i < x.layers[l].len()
                            ==> (#[trigger] x.layers[l][i]) < fr.n
                } by {
                    if k < done.len() {
                        assert(more[k] == done[k]);
                    }
                }
            }
            lemma_parse_nodes_ok(rest, fr, more);
        }
    }
}

/// A header without fault announces parameters a graph may have.
pub proof fn lemma_header_params(b: Seq<u8>)
    requires
        header_fault(b) is None,
    ensures
        header_graph(b).params_ok(),
        header_graph(b).m <= HnswParams::MAX_M,
        header_graph(b).cap(0) <= HnswParams::MAX_LAYER0_DEGREE,
        header_graph(b).max_layer <= HnswParams::MAX_LAYER,
{
    crate::bytes::lemma_from_le_bound(b.subrange(44, 52));
    crate::bytes::lemma_from_le_bound(b.subrange(52, 60));
    crate::bytes::lemma_byte_ranges();
}

/// Whatever decodes is a valid graph.
pub proof fn lemma_decoded_valid(b: Seq<u8>, extra: nat)
    ensures
        decode(b, extra) matches Ok(g) ==> g.valid() && g.layer_total() <= u32::MAX,
{
    if header_fault(b) is None {
        lemma_header_params(b);
        let fr = frame_of(b, extra);
        lemma_parse_nodes_ok(b.skip(HEADER_LEN as int), fr, Seq::empty());
        if let Ok(g) = decode(b, extra) {
            assert forall|k: int| 0 <= k < g.nodes.len() implies #[trigger] g.node_ok(k) by {
                let node = g.nodes[k];
                assert forall|l: int| 0 <= l < node.layers.len() implies g.list_ok(
                    l,
                    #[trigger] node.layers[l],
                ) by {
                    assert(node.layers[l].len() <= fr.header.cap(l));
                    assert forall|i: int| 0 <= i < node.layers[l].len() implies (
                    #[trigger] node.layers[l][i]) < g.nodes.len() by {}
                }
            }
        }
    }
}

/// The outcome of decoding agrees with what the bytes stand for.
pub open spec fn decoded_as(r: Result<Hnsw, HnswDecodeError>, b: Seq<u8>, extra: nat) -> bool {
    match (r, decode(b, extra)) {
        (Ok(h), Ok(g)) => h.wf() && h@ == g,
        (Err(e), Err(f)) => e == f,
        _ => false,
    }
}

impl Hnsw {
    /// Reconstruct a graph serialized by [`Hnsw::to_bytes`].
    ///
    /// Everything needed for a proper graph is checked. Whether links stay
    /// within their layers is not: a graph in which they do not only finds
    /// less.
    pub fn from_bytes(bytes: &[u8]) -> (r: Result<Self, HnswDecodeError>)
        ensures
            decoded_as(r, bytes@, 0),
    {
        let mut src = ByteReader::new(bytes);
        Self::from_graph_bytes(&mut src)
    }

    /// Decode from any [`GraphBytes`] source. What the source claims beyond what
    /// it holds counts as bytes that cannot be read.
    pub fn from_graph_bytes<S: GraphBytes + ?Sized>(r: &mut S) -> (res: Result<
        Self,
        HnswDecodeError,
    >)
        requires
            old(r).readable(),
            old(r).bytes().len() <= old(r).declared(),
        ensures
            res is Ok ==> final(r).beyond() == old(r).beyond(),
            decoded_as(
                res,
                old(r).bytes(),
                (old(r).declared() - old(r).bytes().len()) as nat,
            ),
            res is Ok ==> reading(final(r), Seq::empty(), 0),
    {
        let ghost b = r.bytes();
        let ghost extra = (r.declared() - b.len()) as nat;
        let ghost fr = frame_of(b, extra);
        let head = Header::read(r, Ghost(extra))?;
        let remaining: usize = r.remaining();
        let max_slots: usize = if remaining > usize::MAX - SLOT_FLOOR {
            usize::MAX
        } else {
            remaining + SLOT_FLOOR
        };
        let mut h = Hnsw::with_header(
            head.metric,
            head.m,
            head.gamma,
            head.ef_construction,
            head.dim,
            head.seed,
            head.rng,
        );
        let n: usize = head.n;
        let max_layer: usize = head.max_layer;
        let mut layers: usize = 0;
        let mut done: usize = 0;
        let ghost start = r.bytes();
        let ghost mut nodes: Seq<Node> = Seq::empty();
        proof {
            lemma_header_params(b);
            super::params::lemma_degree_cap_bound(fr.header.m, fr.header.gamma);
            super::params::lemma_degree_cap_bound(2 * fr.header.m, fr.header.gamma);
        }
        while done < n
            invariant
                b == old(r).bytes(),
                extra == (old(r).declared() - old(r).bytes().len()) as nat,
                header_fault(b) is None,
                fr == frame_of(b, extra),
                start == b.skip(HEADER_LEN as int),
                n == fr.n,
                max_layer == fr.header.max_layer,
                max_layer <= HnswParams::MAX_LAYER,
                max_slots == fr.max_slots,
                fr.header.cap(0) <= 0x200_0000,
                fr.header.cap(1) <= 0x200_0000,
                h.decoding(fr, nodes),
                reading(r, r.bytes(), extra),
                r.beyond() == old(r).beyond(),
                done == nodes.len(),
                done <= n,
                layers == layers_of(nodes),
                nodes.len() <= layers,
                nodes.len() * fr.header.dim * 4 + r.declared() <= usize::MAX,
                parse_nodes(r.bytes(), fr, nodes) == parse_nodes(start, fr, Seq::empty()),
            decreases n - done,
        {
            let ghost before = nodes;
            let ghost at = r.bytes();
            match h.read_node(
                r,
                Ghost(fr),
                Ghost(nodes),
                n,
                layers,
                max_layer,
                max_slots,
            ) {
                Ok(total) => {
                    layers = total;
                    proof {
                        let node = parse_node(at, fr, before.len(), layers_of(before))->Ok_0.0;
                        nodes = before.push(node);
                    }
                },
                Err(e) => {
                    return Err(e);
                },
            }
            done += 1;
        }
        if !r.done() {
            return Err(HnswDecodeError::Invalid("trailing bytes"));
        }
        match head.entry_point {
            Some(e) => {
                if h.levels(e) != max_layer + 1 {
                    return Err(HnswDecodeError::Invalid("entry point does not own the top layer"));
                }
            },
            None => {
                if max_layer != 0 {
                    return Err(HnswDecodeError::Invalid("empty graph with nonzero top layer"));
                }
            },
        }
        h.set_entry(head.entry_point, max_layer);
        proof {
            lemma_decoded_valid(b, extra);
            assert(r.bytes() =~= Seq::<u8>::empty());
            assert(h@ =~= Graph { nodes, ..header_graph(b) });
        }
        Ok(h)
    }
}

} // verus!
