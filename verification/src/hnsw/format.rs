//! The serialized form of a graph, and what reading one back means.
//!
//! A blob is a 76-byte header and the nodes in id order; every number is
//! little-endian. [`encode`] says what the bytes of a graph are, [`decode`] what
//! arbitrary bytes stand for, or why they stand for nothing.

use super::graph::{layers_of, Graph, Node};
use super::params::{degree_cap, ef_floor, gamma_in_range, HnswParams};
use super::source::{take_le, take_len, HnswDecodeError, Parsed};
use crate::bytes::{from_le, le};
use crate::filter::AttrValue;
use crate::vector::Metric;
use vstd::prelude::*;

verus! {

/// `"BHNW"`.
pub const CODEC_MAGIC: u32 = 0x4248_4E57;

/// Version 2 added attribute rows. Older blobs are refused: a filtered scan over
/// silently missing attributes would return no rows instead of failing.
pub const CODEC_VERSION: u16 = 2;

/// Attribute value tags. `Null` carries no payload, the others eight bytes.
pub const ATTR_TAG_NULL: u8 = 0;

pub const ATTR_TAG_INT: u8 = 1;

pub const ATTR_TAG_FLOAT: u8 = 2;

/// Link slots a graph may reserve beyond one per payload byte.
pub const SLOT_FLOOR: usize = 0x40_0000;

/// An `i64` as the unsigned number with the same bits.
pub open spec fn unsigned(v: i64) -> nat {
    if v < 0 {
        (v + 0x1_0000_0000_0000_0000) as nat
    } else {
        v as nat
    }
}

/// The `i64` with the bits of an unsigned number.
pub open spec fn signed(v: nat) -> i64 {
    if v >= 0x8000_0000_0000_0000 {
        (v - 0x1_0000_0000_0000_0000) as i64
    } else {
        v as i64
    }
}

/// Bytes of an attribute value.
pub open spec fn encode_value(v: AttrValue) -> Seq<u8> {
    match v {
        AttrValue::Null => le(ATTR_TAG_NULL as nat, 1),
        AttrValue::Int(i) => le(ATTR_TAG_INT as nat, 1) + le(unsigned(i), 8),
        AttrValue::Float(bits) => le(ATTR_TAG_FLOAT as nat, 1) + le(bits as nat, 8),
    }
}

/// Bytes of a run of attribute values.
pub open spec fn encode_values(row: Seq<AttrValue>) -> Seq<u8>
    decreases row.len(),
{
    if row.len() == 0 {
        Seq::empty()
    } else {
        encode_value(row[0]) + encode_values(row.drop_first())
    }
}

/// Bytes of vector components.
pub open spec fn encode_components(v: Seq<u32>) -> Seq<u8>
    decreases v.len(),
{
    if v.len() == 0 {
        Seq::empty()
    } else {
        le(v[0] as nat, 4) + encode_components(v.drop_first())
    }
}

/// Bytes of neighbor ids.
pub open spec fn encode_ids(ids: Seq<u32>) -> Seq<u8>
    decreases ids.len(),
{
    if ids.len() == 0 {
        Seq::empty()
    } else {
        le(ids[0] as nat, 8) + encode_ids(ids.drop_first())
    }
}

/// Bytes of neighbor lists: each its length, then its ids.
pub open spec fn encode_lists(lists: Seq<Seq<u32>>) -> Seq<u8>
    decreases lists.len(),
{
    if lists.len() == 0 {
        Seq::empty()
    } else {
        le(lists[0].len(), 8) + encode_ids(lists[0]) + encode_lists(lists.drop_first())
    }
}

/// Bytes of a node: tombstone flag, layer count, vector, neighbor lists,
/// attribute count and attributes.
pub open spec fn encode_node(node: Node) -> Seq<u8> {
    le(
        if node.deleted {
            1
        } else {
            0
        },
        1,
    ) + le(node.layers.len(), 8) + encode_components(node.vector) + encode_lists(node.layers) + le(
        node.attrs.len(),
        8,
    ) + encode_values(node.attrs)
}

/// Bytes of a run of nodes.
pub open spec fn encode_nodes(nodes: Seq<Node>) -> Seq<u8>
    decreases nodes.len(),
{
    if nodes.len() == 0 {
        Seq::empty()
    } else {
        encode_node(nodes[0]) + encode_nodes(nodes.drop_first())
    }
}

/// The number an entry point is stored as.
pub open spec fn entry_code(entry: Option<usize>) -> nat {
    match entry {
        Some(e) => e as nat,
        None => u64::MAX as nat,
    }
}

/// Bytes of a graph's header. The reserved byte is written as 0 and ignored when
/// read.
pub open spec fn encode_header(g: Graph, reserved: u8) -> Seq<u8> {
    le(CODEC_MAGIC as nat, 4) + le(CODEC_VERSION as nat, 2) + le(g.metric.spec_code() as nat, 1)
        + le(reserved as nat, 1) + le(g.m, 8) + le(g.gamma as nat, 4) + le(g.ef_construction, 8)
        + le(g.dim, 8) + le(g.max_layer, 8) + le(g.seed as nat, 8) + le(g.rng as nat, 8) + le(
        entry_code(g.entry_point),
        8,
    ) + le(g.nodes.len(), 8)
}

/// Bytes of a graph.
pub open spec fn encode(g: Graph) -> Seq<u8> {
    encode_header(g, 0) + encode_nodes(g.nodes)
}

/// The `width`-byte number at `offset`.
pub open spec fn field(b: Seq<u8>, offset: int, width: int) -> nat {
    from_le(b.subrange(offset, offset + width))
}

/// Length of a header.
pub const HEADER_LEN: usize = 76;

/// The entry point a header names.
pub open spec fn header_entry(b: Seq<u8>) -> Option<usize> {
    if field(b, 60, 8) == u64::MAX {
        None
    } else {
        Some(field(b, 60, 8) as usize)
    }
}

/// The first thing wrong with a header, if anything is.
pub open spec fn header_fault(b: Seq<u8>) -> Option<HnswDecodeError> {
    let metric = Metric::spec_from_code(field(b, 6, 1) as u8);
    let m = field(b, 8, 8);
    let gamma = field(b, 16, 4) as u32;
    let ef = field(b, 20, 8);
    let dim = field(b, 28, 8);
    let max_layer = field(b, 36, 8);
    let n = field(b, 68, 8);
    let wide = HnswDecodeError::Invalid("value exceeds address space");
    if b.len() < 4 {
        Some(HnswDecodeError::Truncated)
    } else if field(b, 0, 4) != CODEC_MAGIC {
        Some(HnswDecodeError::BadMagic)
    } else if b.len() < 6 {
        Some(HnswDecodeError::Truncated)
    } else if field(b, 4, 2) != CODEC_VERSION {
        Some(HnswDecodeError::UnsupportedVersion { got: field(b, 4, 2) as u16 })
    } else if b.len() < 7 {
        Some(HnswDecodeError::Truncated)
    } else if metric is None {
        Some(HnswDecodeError::Invalid("unknown metric code"))
    } else if b.len() < 16 {
        Some(HnswDecodeError::Truncated)
    } else if m > usize::MAX {
        Some(wide)
    } else if !(2 <= m <= HnswParams::MAX_M) {
        Some(HnswDecodeError::Invalid("m out of range"))
    } else if b.len() < 20 {
        Some(HnswDecodeError::Truncated)
    } else if !gamma_in_range(gamma) {
        Some(HnswDecodeError::Invalid("gamma out of range"))
    } else if degree_cap(2 * m, gamma) > HnswParams::MAX_LAYER0_DEGREE {
        Some(HnswDecodeError::Invalid("degree cap out of range"))
    } else if b.len() < 28 {
        Some(HnswDecodeError::Truncated)
    } else if ef > usize::MAX {
        Some(wide)
    } else if ef < ef_floor(m, gamma) {
        Some(HnswDecodeError::Invalid("ef_construction below floor"))
    } else if b.len() < 36 {
        Some(HnswDecodeError::Truncated)
    } else if dim > usize::MAX {
        Some(wide)
    } else if dim > HnswParams::MAX_DIM {
        Some(HnswDecodeError::Invalid("dimension out of range"))
    } else if b.len() < 44 {
        Some(HnswDecodeError::Truncated)
    } else if max_layer > usize::MAX {
        Some(wide)
    } else if max_layer > HnswParams::MAX_LAYER {
        Some(HnswDecodeError::Invalid("top layer out of range"))
    } else if b.len() < 60 {
        Some(HnswDecodeError::Truncated)
    } else if field(b, 44, 8) == 0 || field(b, 52, 8) == 0 {
        Some(HnswDecodeError::Invalid("PRNG state must be nonzero"))
    } else if b.len() < 76 {
        Some(HnswDecodeError::Truncated)
    } else if n > usize::MAX {
        Some(wide)
    } else if field(b, 60, 8) != u64::MAX && field(b, 60, 8) >= n {
        Some(HnswDecodeError::Invalid("entry point out of range"))
    } else if n > 0 && header_entry(b) is None {
        Some(HnswDecodeError::Invalid("nonempty graph without entry point"))
    } else if n > 0 && dim == 0 {
        Some(HnswDecodeError::Invalid("nonempty graph with zero dimension"))
    } else {
        None
    }
}

/// The graph a sound header announces, before any node is read.
pub open spec fn header_graph(b: Seq<u8>) -> Graph {
    Graph {
        metric: Metric::spec_from_code(field(b, 6, 1) as u8)->0,
        m: field(b, 8, 8),
        gamma: field(b, 16, 4) as u32,
        ef_construction: field(b, 20, 8),
        dim: field(b, 28, 8),
        seed: field(b, 44, 8) as u64,
        rng: field(b, 52, 8) as u64,
        entry_point: header_entry(b),
        max_layer: field(b, 36, 8),
        nodes: Seq::empty(),
    }
}

/// What reading nodes depends on besides the bytes.
pub struct Frame {
    /// The graph the header announces.
    pub header: Graph,
    /// Node count the header announces.
    pub n: nat,
    /// Bytes the source claims beyond those it holds.
    pub extra: nat,
    /// Link slots the whole graph may reserve.
    pub max_slots: nat,
}

/// The ceiling on link slots for `remaining` bytes of nodes.
pub open spec fn slot_ceiling(remaining: nat) -> nat {
    if remaining + SLOT_FLOOR > usize::MAX {
        usize::MAX as nat
    } else {
        remaining + SLOT_FLOOR as nat
    }
}

impl Frame {
    /// Link slots of `nodes` nodes with `layers` layers in all.
    pub open spec fn slots(self, nodes: nat, layers: nat) -> int {
        nodes * (self.header.cap(0) + 1) + (layers - nodes) * (self.header.cap(1) + 1)
    }
}

/// `left` more neighbor ids, after those in `done`.
pub open spec fn parse_ids(b: Seq<u8>, left: nat, n: nat, done: Seq<u32>) -> Parsed<Seq<u32>>
    decreases left,
{
    if left == 0 {
        Ok((done, b))
    } else {
        match take_len(b) {
            Err(e) => Err(e),
            Ok((id, rest)) => if id >= n {
                Err(HnswDecodeError::Invalid("link target out of range"))
            } else {
                parse_ids(rest, (left - 1) as nat, n, done.push(id as u32))
            },
        }
    }
}

/// One neighbor list of a layer.
pub open spec fn parse_list(b: Seq<u8>, fr: Frame, layer: int) -> Parsed<Seq<u32>> {
    match take_len(b) {
        Err(e) => Err(e),
        Ok((count, rest)) => if count > fr.header.cap(layer) {
            Err(HnswDecodeError::Invalid("neighbor list over degree cap"))
        } else if count > (rest.len() + fr.extra) / 8 {
            Err(HnswDecodeError::Truncated)
        } else {
            parse_ids(rest, count, fr.n, Seq::empty())
        },
    }
}

/// Neighbor lists up to `levels` layers, after those in `done`.
pub open spec fn parse_lists(
    b: Seq<u8>,
    fr: Frame,
    levels: nat,
    done: Seq<Seq<u32>>,
) -> Parsed<Seq<Seq<u32>>>
    decreases levels - done.len(),
{
    if done.len() >= levels {
        Ok((done, b))
    } else {
        match parse_list(b, fr, done.len() as int) {
            Err(e) => Err(e),
            Ok((list, rest)) => parse_lists(rest, fr, levels, done.push(list)),
        }
    }
}

/// `left` more vector components, after those in `done`.
pub open spec fn parse_components(b: Seq<u8>, left: nat, done: Seq<u32>) -> Parsed<Seq<u32>>
    decreases left,
{
    if left == 0 {
        Ok((done, b))
    } else {
        match take_le(b, 4) {
            Err(e) => Err(e),
            Ok((x, rest)) => parse_components(rest, (left - 1) as nat, done.push(x as u32)),
        }
    }
}

/// One attribute value.
pub open spec fn parse_value(b: Seq<u8>) -> Parsed<AttrValue> {
    match take_le(b, 1) {
        Err(e) => Err(e),
        Ok((tag, rest)) => if tag == ATTR_TAG_NULL {
            Ok((AttrValue::Null, rest))
        } else if tag == ATTR_TAG_INT || tag == ATTR_TAG_FLOAT {
            match take_le(rest, 8) {
                Err(e) => Err(e),
                Ok((v, tail)) => Ok(
                    (
                        if tag == ATTR_TAG_INT {
                            AttrValue::Int(signed(v))
                        } else {
                            AttrValue::Float(v as u64)
                        },
                        tail,
                    ),
                ),
            }
        } else {
            Err(HnswDecodeError::Invalid("bad attribute tag"))
        },
    }
}

/// `left` more attribute values, after those in `done`.
pub open spec fn parse_values(b: Seq<u8>, left: nat, done: Seq<AttrValue>) -> Parsed<
    Seq<AttrValue>,
>
    decreases left,
{
    if left == 0 {
        Ok((done, b))
    } else {
        match parse_value(b) {
            Err(e) => Err(e),
            Ok((v, rest)) => parse_values(rest, (left - 1) as nat, done.push(v)),
        }
    }
}

/// An attribute row: its length, then its values.
pub open spec fn parse_row(b: Seq<u8>, extra: nat) -> Parsed<Seq<AttrValue>> {
    match take_len(b) {
        Err(e) => Err(e),
        Ok((count, rest)) => if count > rest.len() + extra {
            Err(HnswDecodeError::Truncated)
        } else {
            parse_values(rest, count, Seq::empty())
        },
    }
}

/// A tombstone flag.
pub open spec fn parse_flag(b: Seq<u8>) -> Parsed<bool> {
    match take_le(b, 1) {
        Err(e) => Err(e),
        Ok((flag, rest)) => if flag > 1 {
            Err(HnswDecodeError::Invalid("bad tombstone flag"))
        } else {
            Ok((flag == 1, rest))
        },
    }
}

/// A node's layer count.
pub open spec fn parse_levels(b: Seq<u8>, max_layer: nat) -> Parsed<nat> {
    match take_len(b) {
        Err(e) => Err(e),
        Ok((levels, rest)) => if levels == 0 {
            Err(HnswDecodeError::Invalid("node with no layers"))
        } else if levels - 1 > max_layer {
            Err(HnswDecodeError::Invalid("node above the top layer"))
        } else {
            Ok((levels, rest))
        },
    }
}

/// What is wrong with a node of `levels` layers, coming after `nodes` nodes with
/// `layers` layers, once `remaining` bytes are left after its vector.
pub open spec fn room_fault(
    fr: Frame,
    nodes: nat,
    layers: nat,
    levels: nat,
    remaining: nat,
) -> Option<HnswDecodeError> {
    if levels > remaining / 8 {
        Some(HnswDecodeError::Truncated)
    } else if layers + levels > u32::MAX {
        Some(HnswDecodeError::Invalid("too many layers"))
    } else if fr.slots(nodes + 1, layers + levels) > fr.max_slots {
        Some(HnswDecodeError::Invalid("link storage exceeds what the payload could describe"))
    } else {
        None
    }
}

/// One node, coming after `nodes` nodes with `layers` layers in all.
pub open spec fn parse_node(b: Seq<u8>, fr: Frame, nodes: nat, layers: nat) -> Parsed<Node> {
    match parse_flag(b) {
        Err(e) => Err(e),
        Ok((deleted, b1)) => match parse_levels(b1, fr.header.max_layer) {
            Err(e) => Err(e),
            Ok((levels, b2)) => match parse_components(b2, fr.header.dim, Seq::empty()) {
                Err(e) => Err(e),
                Ok((vector, b3)) => match room_fault(
                    fr,
                    nodes,
                    layers,
                    levels,
                    b3.len() + fr.extra,
                ) {
                    Some(e) => Err(e),
                    None => match parse_lists(b3, fr, levels, Seq::empty()) {
                        Err(e) => Err(e),
                        Ok((lists, b4)) => match parse_row(b4, fr.extra) {
                            Err(e) => Err(e),
                            Ok((attrs, rest)) => Ok(
                                (Node { vector, layers: lists, attrs, deleted }, rest),
                            ),
                        },
                    },
                },
            },
        },
    }
}

/// The nodes up to `fr.n`, after those in `done`.
pub open spec fn parse_nodes(b: Seq<u8>, fr: Frame, done: Seq<Node>) -> Parsed<Seq<Node>>
    decreases fr.n - done.len(),
{
    if done.len() >= fr.n {
        Ok((done, b))
    } else {
        match parse_node(b, fr, done.len(), layers_of(done)) {
            Err(e) => Err(e),
            Ok((node, rest)) => parse_nodes(rest, fr, done.push(node)),
        }
    }
}

/// The frame a header sets, for a source that claims `extra` bytes beyond `b`.
pub open spec fn frame_of(b: Seq<u8>, extra: nat) -> Frame {
    Frame {
        header: header_graph(b),
        n: field(b, 68, 8),
        extra,
        max_slots: slot_ceiling((b.len() - HEADER_LEN + extra) as nat),
    }
}

/// The graph bytes stand for, or why they stand for none. `extra` is how many
/// bytes their source claims beyond those it holds.
pub open spec fn decode(b: Seq<u8>, extra: nat) -> Result<Graph, HnswDecodeError> {
    match header_fault(b) {
        Some(e) => Err(e),
        None => match parse_nodes(b.skip(HEADER_LEN as int), frame_of(b, extra), Seq::empty()) {
            Err(e) => Err(e),
            Ok((nodes, rest)) => {
                let g = Graph { nodes, ..header_graph(b) };
                if rest.len() + extra != 0 {
                    Err(HnswDecodeError::Invalid("trailing bytes"))
                } else {
                    match g.entry_point {
                        Some(e) => if nodes[e as int].layers.len() != g.max_layer + 1 {
                            Err(HnswDecodeError::Invalid("entry point does not own the top layer"))
                        } else {
                            Ok(g)
                        },
                        None => if g.max_layer != 0 {
                            Err(HnswDecodeError::Invalid("empty graph with nonzero top layer"))
                        } else {
                            Ok(g)
                        },
                    }
                }
            },
        },
    }
}

/// What an index in memory can hold: 32-bit layer offsets, and attribute rows
/// whose lengths fit the machine.
pub open spec fn storable(g: Graph) -> bool {
    &&& g.valid()
    &&& g.layer_total() <= u32::MAX
    &&& forall|i: int|
        0 <= i < g.nodes.len() ==> (#[trigger] g.nodes[i]).attrs.len() <= usize::MAX
}

/// What can be read back: a graph within the decoder's limits.
pub open spec fn decodable(g: Graph) -> bool {
    &&& g.valid()
    &&& g.m <= HnswParams::MAX_M
    &&& g.cap(0) <= HnswParams::MAX_LAYER0_DEGREE
    &&& g.max_layer <= HnswParams::MAX_LAYER
    &&& g.layer_total() <= u32::MAX
    &&& g.nodes.len() * (g.cap(0) + 1) + (g.layer_total() - g.nodes.len()) * (g.cap(1) + 1)
        <= slot_ceiling(encode_nodes(g.nodes).len())
    &&& forall|i: int|
        0 <= i < g.nodes.len() ==> (#[trigger] g.nodes[i]).attrs.len() <= usize::MAX
}

} // verus!
