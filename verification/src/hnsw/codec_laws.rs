//! Serialization loses nothing, and nothing else decodes.

use super::codec::{
    lemma_decoded_valid, lemma_header_params, lemma_parse_nodes_ok, lists_len, nodes_len_hint,
};
use super::format::{
    decodable, decode, encode, encode_components, encode_header, encode_ids, encode_lists,
    encode_node, encode_nodes, encode_value, encode_values, entry_code, field, frame_of,
    header_entry, header_fault, header_graph, parse_components, parse_flag, parse_ids, parse_levels,
    parse_list, parse_lists, parse_node, parse_nodes, parse_row, parse_value, parse_values,
    room_fault, signed, storable, unsigned, Frame, ATTR_TAG_FLOAT, ATTR_TAG_INT, ATTR_TAG_NULL,
    CODEC_MAGIC, CODEC_VERSION, HEADER_LEN,
};
use super::graph::{layers_of, Graph, Hnsw, Node};
use super::insert::{Builder, Row};
use super::params::HnswParams;
use super::source::{take_le, take_len, HnswDecodeError};
use crate::bytes::{
    byte_range, from_le, le, lemma_byte_ranges, lemma_from_le_bound, lemma_from_le_of_le,
    lemma_le_len, lemma_le_of_from_le,
};
use crate::filter::AttrValue;
use crate::vector::Metric;
use vstd::prelude::*;

verus! {

/// A number written at the front is read back.
pub proof fn lemma_take_le_there(v: nat, width: nat, rest: Seq<u8>)
    requires
        v < byte_range(width),
    ensures
        take_le(le(v, width) + rest, width) == Ok::<(nat, Seq<u8>), HnswDecodeError>((v, rest)),
{
    lemma_le_len(v, width);
    lemma_from_le_of_le(v, width);
    let b = le(v, width) + rest;
    assert(b.take(width as int) =~= le(v, width));
    assert(b.skip(width as int) =~= rest);
}

/// A count written at the front is read back.
pub proof fn lemma_take_len_there(v: nat, rest: Seq<u8>)
    requires
        v <= usize::MAX,
    ensures
        take_len(le(v, 8) + rest) == Ok::<(nat, Seq<u8>), HnswDecodeError>((v, rest)),
{
    lemma_byte_ranges();
    lemma_take_le_there(v, 8, rest);
}

/// What was read is what a number written there looks like.
pub proof fn lemma_take_le_back(b: Seq<u8>, width: nat)
    ensures
        take_le(b, width) matches Ok((v, rest)) ==> b == le(v, width) + rest && v < byte_range(
            width,
        ),
{
    if b.len() >= width {
        let head = b.take(width as int);
        lemma_le_of_from_le(head);
        lemma_from_le_bound(head);
        assert(b =~= head + b.skip(width as int));
    }
}

proof fn lemma_components_there(v: Seq<u32>, rest: Seq<u8>, done: Seq<u32>)
    ensures
        parse_components(encode_components(v) + rest, v.len(), done) == Ok::<
            (Seq<u32>, Seq<u8>),
            HnswDecodeError,
        >((done + v, rest)),
    decreases v.len(),
{
    if v.len() == 0 {
        assert(encode_components(v) + rest =~= rest);
        assert(done + v =~= done);
    } else {
        let tail = v.drop_first();
        let more = encode_components(tail) + rest;
        assert(encode_components(v) + rest =~= le(v[0] as nat, 4) + more);
        lemma_byte_ranges();
        lemma_take_le_there(v[0] as nat, 4, more);
        lemma_components_there(tail, rest, done.push(v[0]));
        assert(done.push(v[0]) + tail =~= done + v);
    }
}

proof fn lemma_components_back(b: Seq<u8>, left: nat, done: Seq<u32>)
    ensures
        parse_components(b, left, done) matches Ok((x, rest)) ==> {
            &&& x.len() == done.len() + left
            &&& x.take(done.len() as int) == done
            &&& b == encode_components(x.skip(done.len() as int)) + rest
        },
    decreases left,
{
    if left == 0 {
        assert(done.take(done.len() as int) =~= done);
        assert(done.skip(done.len() as int) =~= Seq::<u32>::empty());
        assert(b =~= encode_components(Seq::<u32>::empty()) + b);
    } else {
        lemma_take_le_back(b, 4);
        lemma_byte_ranges();
        if let Ok((c, tail)) = take_le(b, 4) {
            let more = done.push(c as u32);
            lemma_components_back(tail, (left - 1) as nat, more);
            if let Ok((x, rest)) = parse_components(tail, (left - 1) as nat, more) {
                assert(x.take(done.len() as int) =~= x.take(more.len() as int).take(
                    done.len() as int,
                ));
                assert(more.take(done.len() as int) =~= done);
                let s = x.skip(done.len() as int);
                assert(x[done.len() as int] == x.take(more.len() as int)[done.len() as int]);
                assert(s[0] == c);
                assert(s.drop_first() =~= x.skip(more.len() as int));
                assert(b =~= encode_components(s) + rest);
            }
        }
    }
}

proof fn lemma_ids_there(ids: Seq<u32>, n: nat, rest: Seq<u8>, done: Seq<u32>)
    requires
        forall|i: int| 0 <= i < ids.len() ==> (#[trigger] ids[i]) < n,
    ensures
        parse_ids(encode_ids(ids) + rest, ids.len(), n, done) == Ok::<
            (Seq<u32>, Seq<u8>),
            HnswDecodeError,
        >((done + ids, rest)),
        encode_ids(ids).len() == 8 * ids.len(),
    decreases ids.len(),
{
    if ids.len() == 0 {
        assert(encode_ids(ids) + rest =~= rest);
        assert(done + ids =~= done);
    } else {
        let tail = ids.drop_first();
        assert forall|i: int| 0 <= i < tail.len() implies (#[trigger] tail[i]) < n by {
            assert(tail[i] == ids[i + 1]);
        }
        let more = encode_ids(tail) + rest;
        lemma_le_len(ids[0] as nat, 8);
        assert(encode_ids(ids) + rest =~= le(ids[0] as nat, 8) + more);
        lemma_take_len_there(ids[0] as nat, more);
        lemma_ids_there(tail, n, rest, done.push(ids[0]));
        assert(done.push(ids[0]) + tail =~= done + ids);
    }
}

proof fn lemma_ids_back(b: Seq<u8>, left: nat, n: nat, done: Seq<u32>)
    requires
        n <= u32::MAX,
    ensures
        parse_ids(b, left, n, done) matches Ok((x, rest)) ==> {
            &&& x.len() == done.len() + left
            &&& x.take(done.len() as int) == done
            &&& b == encode_ids(x.skip(done.len() as int)) + rest
        },
    decreases left,
{
    if left == 0 {
        assert(done.take(done.len() as int) =~= done);
        assert(done.skip(done.len() as int) =~= Seq::<u32>::empty());
        assert(b =~= encode_ids(Seq::<u32>::empty()) + b);
    } else {
        lemma_take_le_back(b, 8);
        if let Ok((c, tail)) = take_len(b) {
            if c < n {
                let more = done.push(c as u32);
                lemma_ids_back(tail, (left - 1) as nat, n, more);
                if let Ok((x, rest)) = parse_ids(tail, (left - 1) as nat, n, more) {
                    assert(x.take(done.len() as int) =~= x.take(more.len() as int).take(
                        done.len() as int,
                    ));
                    assert(more.take(done.len() as int) =~= done);
                    let s = x.skip(done.len() as int);
                    assert(x[done.len() as int] == x.take(more.len() as int)[done.len() as int]);
                    assert(s[0] == c);
                    assert(s.drop_first() =~= x.skip(more.len() as int));
                    assert(b =~= encode_ids(s) + rest);
                }
            }
        }
    }
}

/// Lists that may follow those in `done`: within their caps, naming nodes.
spec fn lists_fit(fr: Frame, lists: Seq<Seq<u32>>, from: int) -> bool {
    forall|l: int|
        0 <= l < lists.len() ==> (#[trigger] lists[l]).len() <= fr.header.cap(from + l)
            && lists[l].len() <= usize::MAX && (forall|i: int|
            0 <= i < lists[l].len() ==> (#[trigger] lists[l][i]) < fr.n)
}

proof fn lemma_list_there(list: Seq<u32>, fr: Frame, layer: int, rest: Seq<u8>)
    requires
        list.len() <= fr.header.cap(layer),
        list.len() <= usize::MAX,
        forall|i: int| 0 <= i < list.len() ==> (#[trigger] list[i]) < fr.n,
    ensures
        parse_list(le(list.len(), 8) + encode_ids(list) + rest, fr, layer) == Ok::<
            (Seq<u32>, Seq<u8>),
            HnswDecodeError,
        >((list, rest)),
{
    let more = encode_ids(list) + rest;
    assert(le(list.len(), 8) + encode_ids(list) + rest =~= le(list.len(), 8) + more);
    lemma_take_len_there(list.len(), more);
    lemma_ids_there(list, fr.n, rest, Seq::empty());
    assert(Seq::<u32>::empty() + list =~= list);
    assert(list.len() <= (more.len() + fr.extra) / 8);
}

proof fn lemma_lists_there(
    lists: Seq<Seq<u32>>,
    fr: Frame,
    rest: Seq<u8>,
    done: Seq<Seq<u32>>,
)
    requires
        lists_fit(fr, lists, done.len() as int),
    ensures
        parse_lists(encode_lists(lists) + rest, fr, done.len() + lists.len(), done) == Ok::<
            (Seq<Seq<u32>>, Seq<u8>),
            HnswDecodeError,
        >((done + lists, rest)),
        encode_lists(lists).len() >= 8 * lists.len(),
    decreases lists.len(),
{
    if lists.len() == 0 {
        assert(encode_lists(lists) + rest =~= rest);
        assert(done + lists =~= done);
    } else {
        let tail = lists.drop_first();
        let first = lists[0];
        let more = encode_lists(tail) + rest;
        lemma_le_len(first.len(), 8);
        assert(encode_lists(lists) + rest =~= le(first.len(), 8) + encode_ids(first) + more);
        assert(first.len() <= fr.header.cap(done.len() as int + 0));
        lemma_list_there(first, fr, done.len() as int, more);
        assert(lists_fit(fr, tail, done.push(first).len() as int)) by {
            assert forall|l: int| 0 <= l < tail.len() implies (#[trigger] tail[l]).len()
                <= fr.header.cap(done.push(first).len() + l) && tail[l].len() <= usize::MAX && (
            forall|i: int| 0 <= i < tail[l].len() ==> (#[trigger] tail[l][i]) < fr.n) by {
                assert(tail[l] == lists[l + 1]);
            }
        }
        lemma_lists_there(tail, fr, rest, done.push(first));
        assert(done.push(first) + tail =~= done + lists);
    }
}

proof fn lemma_lists_back(b: Seq<u8>, fr: Frame, levels: nat, done: Seq<Seq<u32>>)
    requires
        fr.n <= u32::MAX,
        done.len() <= levels,
    ensures
        parse_lists(b, fr, levels, done) matches Ok((x, rest)) ==> {
            &&& x.len() == levels
            &&& x.take(done.len() as int) == done
            &&& b == encode_lists(x.skip(done.len() as int)) + rest
        },
    decreases levels - done.len(),
{
    if done.len() >= levels {
        assert(done.take(done.len() as int) =~= done);
        assert(done.skip(done.len() as int) =~= Seq::<Seq<u32>>::empty());
        assert(b =~= encode_lists(Seq::<Seq<u32>>::empty()) + b);
    } else {
        lemma_take_le_back(b, 8);
        if let Ok((list, tail)) = parse_list(b, fr, done.len() as int) {
            let (count, ids) = take_len(b)->Ok_0;
            lemma_ids_back(ids, count, fr.n, Seq::empty());
            assert(list.skip(0) =~= list);
            let more = done.push(list);
            lemma_lists_back(tail, fr, levels, more);
            if let Ok((x, rest)) = parse_lists(tail, fr, levels, more) {
                assert(x.take(done.len() as int) =~= x.take(more.len() as int).take(
                    done.len() as int,
                ));
                assert(more.take(done.len() as int) =~= done);
                let s = x.skip(done.len() as int);
                assert(x[done.len() as int] == x.take(more.len() as int)[done.len() as int]);
                assert(s[0] == list);
                assert(s.drop_first() =~= x.skip(more.len() as int));
                assert(b =~= encode_lists(s) + rest);
            }
        }
    }
}

/// The bits of an `i64` stand for it, both ways.
proof fn lemma_signed(v: i64, u: nat)
    requires
        u < 0x1_0000_0000_0000_0000,
    ensures
        unsigned(v) < 0x1_0000_0000_0000_0000,
        signed(unsigned(v)) == v,
        unsigned(signed(u)) == u,
{
}

proof fn lemma_value_there(v: AttrValue, rest: Seq<u8>)
    ensures
        parse_value(encode_value(v) + rest) == Ok::<(AttrValue, Seq<u8>), HnswDecodeError>(
            (v, rest),
        ),
        1 <= encode_value(v).len() <= 9,
        v !is Null ==> encode_value(v).len() == 9,
{
    broadcast use lemma_le_len;

    lemma_byte_ranges();
    match v {
        AttrValue::Null => {
            lemma_take_le_there(ATTR_TAG_NULL as nat, 1, rest);
        },
        AttrValue::Int(i) => {
            lemma_signed(i, 0);
            let more = le(unsigned(i), 8) + rest;
            assert(encode_value(v) + rest =~= le(ATTR_TAG_INT as nat, 1) + more);
            lemma_take_le_there(ATTR_TAG_INT as nat, 1, more);
            lemma_take_le_there(unsigned(i), 8, rest);
        },
        AttrValue::Float(bits) => {
            let more = le(bits as nat, 8) + rest;
            assert(encode_value(v) + rest =~= le(ATTR_TAG_FLOAT as nat, 1) + more);
            lemma_take_le_there(ATTR_TAG_FLOAT as nat, 1, more);
            lemma_take_le_there(bits as nat, 8, rest);
        },
    }
}

proof fn lemma_value_back(b: Seq<u8>)
    ensures
        parse_value(b) matches Ok((v, rest)) ==> b == encode_value(v) + rest,
{
    lemma_byte_ranges();
    lemma_take_le_back(b, 1);
    if let Ok((tag, tail)) = take_le(b, 1) {
        lemma_take_le_back(tail, 8);
        if let Ok((v, rest)) = take_le(tail, 8) {
            lemma_signed(0, v);
        }
        if let Ok((v, rest)) = parse_value(b) {
            assert(b =~= encode_value(v) + rest);
        }
    }
}

pub(crate) proof fn lemma_values_there(row: Seq<AttrValue>, rest: Seq<u8>, done: Seq<AttrValue>)
    ensures
        parse_values(encode_values(row) + rest, row.len(), done) == Ok::<
            (Seq<AttrValue>, Seq<u8>),
            HnswDecodeError,
        >((done + row, rest)),
        row.len() <= encode_values(row).len() <= 9 * row.len(),
    decreases row.len(),
{
    if row.len() == 0 {
        assert(encode_values(row) + rest =~= rest);
        assert(done + row =~= done);
    } else {
        let tail = row.drop_first();
        let more = encode_values(tail) + rest;
        assert(encode_values(row) + rest =~= encode_value(row[0]) + more);
        lemma_value_there(row[0], more);
        lemma_values_there(tail, rest, done.push(row[0]));
        assert(done.push(row[0]) + tail =~= done + row);
    }
}

pub(crate) proof fn lemma_values_back(b: Seq<u8>, left: nat, done: Seq<AttrValue>)
    ensures
        parse_values(b, left, done) matches Ok((x, rest)) ==> {
            &&& x.len() == done.len() + left
            &&& x.take(done.len() as int) == done
            &&& b == encode_values(x.skip(done.len() as int)) + rest
        },
    decreases left,
{
    if left == 0 {
        assert(done.take(done.len() as int) =~= done);
        assert(done.skip(done.len() as int) =~= Seq::<AttrValue>::empty());
        assert(b =~= encode_values(Seq::<AttrValue>::empty()) + b);
    } else {
        lemma_value_back(b);
        if let Ok((c, tail)) = parse_value(b) {
            let more = done.push(c);
            lemma_values_back(tail, (left - 1) as nat, more);
            if let Ok((x, rest)) = parse_values(tail, (left - 1) as nat, more) {
                assert(x.take(done.len() as int) =~= x.take(more.len() as int).take(
                    done.len() as int,
                ));
                assert(more.take(done.len() as int) =~= done);
                let s = x.skip(done.len() as int);
                assert(x[done.len() as int] == x.take(more.len() as int)[done.len() as int]);
                assert(s[0] == c);
                assert(s.drop_first() =~= x.skip(more.len() as int));
                assert(b =~= encode_values(s) + rest);
            }
        }
    }
}

/// A node that may be read back under a frame, after `nodes` nodes with `layers`
/// layers.
spec fn node_fits(fr: Frame, node: Node, nodes: nat, layers: nat) -> bool {
    &&& node.vector.len() == fr.header.dim
    &&& 1 <= node.layers.len() <= fr.header.max_layer + 1
    &&& node.layers.len() <= usize::MAX
    &&& node.attrs.len() <= usize::MAX
    &&& lists_fit(fr, node.layers, 0)
    &&& layers + node.layers.len() <= u32::MAX
    &&& fr.slots(nodes + 1, layers + node.layers.len()) <= fr.max_slots
}

/// Brackets do not matter.
proof fn lemma_assoc(a: Seq<u8>, b: Seq<u8>, c: Seq<u8>)
    ensures
        a + b + c == a + (b + c),
{
    assert(a + b + c =~= a + (b + c));
}

/// The flag of a node.
spec fn flag_of(node: Node) -> nat {
    if node.deleted {
        1
    } else {
        0
    }
}

/// A node and what follows it, with the brackets the other way round.
proof fn lemma_node_unfold(node: Node, rest: Seq<u8>)
    ensures
        encode_node(node) + rest == le(flag_of(node), 1) + (le(node.layers.len(), 8) + (
        encode_components(node.vector) + (encode_lists(node.layers) + (le(node.attrs.len(), 8) + (
        encode_values(node.attrs) + rest))))),
{
    let a1 = le(flag_of(node), 1);
    let a2 = le(node.layers.len(), 8);
    let a3 = encode_components(node.vector);
    let a4 = encode_lists(node.layers);
    let a5 = le(node.attrs.len(), 8);
    let a6 = encode_values(node.attrs);
    let h2 = a1 + a2;
    let h3 = h2 + a3;
    let h4 = h3 + a4;
    let h5 = h4 + a5;
    let t6 = a6 + rest;
    let t5 = a5 + t6;
    let t4 = a4 + t5;
    let t3 = a3 + t4;
    assert(encode_node(node) == h5 + a6);
    lemma_assoc(h5, a6, rest);
    lemma_assoc(h4, a5, t6);
    lemma_assoc(h3, a4, t5);
    lemma_assoc(h2, a3, t4);
    assert(a1 + a2 + t3 =~= a1 + (a2 + t3));
}

#[verifier::spinoff_prover]
proof fn lemma_node_there(node: Node, fr: Frame, nodes: nat, layers: nat, rest: Seq<u8>)
    requires
        node_fits(fr, node, nodes, layers),
    ensures
        parse_node(encode_node(node) + rest, fr, nodes, layers) == Ok::<
            (Node, Seq<u8>),
            HnswDecodeError,
        >((node, rest)),
{
    let flag = flag_of(node);
    let r5 = encode_values(node.attrs) + rest;
    let r4 = le(node.attrs.len(), 8) + r5;
    let r3 = encode_lists(node.layers) + r4;
    let r2 = encode_components(node.vector) + r3;
    let r1 = le(node.layers.len(), 8) + r2;
    let b = encode_node(node) + rest;
    lemma_node_unfold(node, rest);
    assert(parse_flag(b) == Ok::<(bool, Seq<u8>), HnswDecodeError>((node.deleted, r1))) by {
        lemma_byte_ranges();
        lemma_take_le_there(flag, 1, r1);
    }
    assert(parse_levels(r1, fr.header.max_layer) == Ok::<(nat, Seq<u8>), HnswDecodeError>(
        (node.layers.len(), r2),
    )) by {
        lemma_take_len_there(node.layers.len(), r2);
    }
    assert(parse_components(r2, fr.header.dim, Seq::empty()) == Ok::<
        (Seq<u32>, Seq<u8>),
        HnswDecodeError,
    >((node.vector, r3))) by {
        lemma_components_there(node.vector, r3, Seq::empty());
        assert(Seq::<u32>::empty() + node.vector =~= node.vector);
    }
    assert(parse_lists(r3, fr, node.layers.len(), Seq::empty()) == Ok::<
        (Seq<Seq<u32>>, Seq<u8>),
        HnswDecodeError,
    >((node.layers, r4)) && r3.len() >= 8 * node.layers.len()) by {
        lemma_lists_there(node.layers, fr, r4, Seq::empty());
        assert(Seq::<Seq<u32>>::empty() + node.layers =~= node.layers);
    }
    assert(parse_row(r4, fr.extra) == Ok::<(Seq<AttrValue>, Seq<u8>), HnswDecodeError>(
        (node.attrs, rest),
    )) by {
        lemma_take_len_there(node.attrs.len(), r5);
        lemma_values_there(node.attrs, rest, Seq::empty());
        assert(Seq::<AttrValue>::empty() + node.attrs =~= node.attrs);
    }
    assert(room_fault(fr, nodes, layers, node.layers.len(), r3.len() + fr.extra) is None);
    assert(Node {
        vector: node.vector,
        layers: node.layers,
        attrs: node.attrs,
        deleted: node.deleted,
    } == node);
}

proof fn lemma_row_back(b: Seq<u8>, extra: nat)
    ensures
        parse_row(b, extra) matches Ok((attrs, rest)) ==> b == le(attrs.len(), 8) + (
        encode_values(attrs) + rest),
{
    lemma_take_le_back(b, 8);
    if let Ok((attrs, rest)) = parse_row(b, extra) {
        let (count, tail) = take_len(b)->Ok_0;
        lemma_values_back(tail, count, Seq::empty());
        assert(attrs.skip(0) =~= attrs);
    }
}

#[verifier::spinoff_prover]
proof fn lemma_node_back(b: Seq<u8>, fr: Frame, nodes: nat, layers: nat)
    requires
        fr.n <= u32::MAX,
    ensures
        parse_node(b, fr, nodes, layers) matches Ok((node, rest)) ==> {
            &&& b == encode_node(node) + rest
            &&& fr.slots(nodes + 1, layers + node.layers.len()) <= fr.max_slots
        },
{
    if let Ok((node, rest)) = parse_node(b, fr, nodes, layers) {
        let (deleted, b1) = parse_flag(b)->Ok_0;
        let (levels, b2) = parse_levels(b1, fr.header.max_layer)->Ok_0;
        let (vector, b3) = parse_components(b2, fr.header.dim, Seq::empty())->Ok_0;
        let (lists, b4) = parse_lists(b3, fr, levels, Seq::empty())->Ok_0;
        assert(b == le(flag_of(node), 1) + b1) by {
            lemma_take_le_back(b, 1);
        }
        assert(b1 == le(levels, 8) + b2) by {
            lemma_take_le_back(b1, 8);
        }
        assert(b2 == encode_components(vector) + b3) by {
            lemma_components_back(b2, fr.header.dim, Seq::empty());
            assert(vector.skip(0) =~= vector);
        }
        assert(b3 == encode_lists(lists) + b4 && lists.len() == levels) by {
            lemma_lists_back(b3, fr, levels, Seq::empty());
            assert(lists.skip(0) =~= lists);
        }
        lemma_row_back(b4, fr.extra);
        lemma_node_unfold(node, rest);
    }
}

/// Nodes that may be read back under a frame, after those in `done`.
spec fn nodes_fit(fr: Frame, nodes: Seq<Node>, done: Seq<Node>) -> bool {
    forall|k: int|
        0 <= k < nodes.len() ==> #[trigger] node_fits(
            fr,
            nodes[k],
            done.len() + k as nat,
            layers_of(done + nodes.take(k)),
        )
}

proof fn lemma_nodes_there(nodes: Seq<Node>, fr: Frame, rest: Seq<u8>, done: Seq<Node>)
    requires
        fr.n == done.len() + nodes.len(),
        nodes_fit(fr, nodes, done),
    ensures
        parse_nodes(encode_nodes(nodes) + rest, fr, done) == Ok::<
            (Seq<Node>, Seq<u8>),
            HnswDecodeError,
        >((done + nodes, rest)),
    decreases nodes.len(),
{
    if nodes.len() == 0 {
        assert(encode_nodes(nodes) + rest =~= rest);
        assert(done + nodes =~= done);
    } else {
        let tail = nodes.drop_first();
        let more = encode_nodes(tail) + rest;
        assert(encode_nodes(nodes) + rest =~= encode_node(nodes[0]) + more);
        assert(done + nodes.take(0) =~= done);
        assert(node_fits(fr, nodes[0], done.len() + 0nat, layers_of(done + nodes.take(0))));
        lemma_node_there(nodes[0], fr, done.len(), layers_of(done), more);
        let next = done.push(nodes[0]);
        assert(nodes_fit(fr, tail, next)) by {
            assert forall|k: int| 0 <= k < tail.len() implies #[trigger] node_fits(
                fr,
                tail[k],
                next.len() + k as nat,
                layers_of(next + tail.take(k)),
            ) by {
                assert(tail[k] == nodes[k + 1]);
                assert(next + tail.take(k) =~= done + nodes.take(k + 1));
                assert(node_fits(
                    fr,
                    nodes[k + 1],
                    done.len() + (k + 1) as nat,
                    layers_of(done + nodes.take(k + 1)),
                ));
            }
        }
        lemma_nodes_there(tail, fr, rest, next);
        assert(next + tail =~= done + nodes);
    }
}

#[verifier::spinoff_prover]
proof fn lemma_nodes_back(b: Seq<u8>, fr: Frame, done: Seq<Node>)
    requires
        fr.n <= u32::MAX,
        done.len() <= fr.n,
        done.len() > 0 ==> fr.slots(done.len(), layers_of(done)) <= fr.max_slots,
    ensures
        parse_nodes(b, fr, done) matches Ok((x, rest)) ==> {
            &&& x.len() == fr.n
            &&& x.take(done.len() as int) == done
            &&& b == encode_nodes(x.skip(done.len() as int)) + rest
            &&& x.len() > 0 ==> fr.slots(x.len(), layers_of(x)) <= fr.max_slots
        },
    decreases fr.n - done.len(),
{
    if done.len() >= fr.n {
        assert(done.take(done.len() as int) =~= done);
        assert(done.skip(done.len() as int) =~= Seq::<Node>::empty());
        assert(b =~= encode_nodes(Seq::<Node>::empty()) + b);
    } else {
        lemma_node_back(b, fr, done.len(), layers_of(done));
        if let Ok((node, tail)) = parse_node(b, fr, done.len(), layers_of(done)) {
            let more = done.push(node);
            assert(more.drop_last() =~= done);
            lemma_nodes_back(tail, fr, more);
            if let Ok((x, rest)) = parse_nodes(tail, fr, more) {
                assert(x.take(done.len() as int) =~= x.take(more.len() as int).take(
                    done.len() as int,
                ));
                assert(more.take(done.len() as int) =~= done);
                let s = x.skip(done.len() as int);
                assert(x[done.len() as int] == x.take(more.len() as int)[done.len() as int]);
                assert(s[0] == node);
                assert(s.drop_first() =~= x.skip(more.len() as int));
                lemma_assoc(encode_node(node), encode_nodes(s.drop_first()), rest);
            }
        }
    }
}

/// One field of a header, and where the next begins.
proof fn lemma_field_there(b: Seq<u8>, at: int, v: nat, width: nat, rest: Seq<u8>)
    requires
        0 <= at <= b.len(),
        b.skip(at) == le(v, width) + rest,
        v < byte_range(width),
    ensures
        field(b, at, width as int) == v,
        at + width <= b.len(),
        b.skip(at + width) == rest,
{
    lemma_le_len(v, width);
    lemma_from_le_of_le(v, width);
    assert(b.subrange(at, at + width) =~= b.skip(at).take(width as int));
    assert(b.skip(at).take(width as int) =~= le(v, width));
    assert(b.skip(at + width) =~= b.skip(at).skip(width as int));
    assert(b.skip(at).skip(width as int) =~= rest);
}

/// A field read from a header is what a number written there looks like.
proof fn lemma_field_back(b: Seq<u8>, at: int, width: nat)
    requires
        0 <= at,
        at + width <= b.len(),
    ensures
        b.skip(at) == le(field(b, at, width as int), width) + b.skip(at + width),
        field(b, at, width as int) < byte_range(width),
{
    let part = b.subrange(at, at + width);
    lemma_le_of_from_le(part);
    lemma_from_le_bound(part);
    assert(b.skip(at) =~= part + b.skip(at + width));
}

/// A header and what follows it, with the brackets the other way round.
proof fn lemma_header_unfold(g: Graph, reserved: u8, rest: Seq<u8>)
    ensures
        encode_header(g, reserved) + rest == le(CODEC_MAGIC as nat, 4) + (le(
            CODEC_VERSION as nat,
            2,
        ) + (le(g.metric.spec_code() as nat, 1) + (le(reserved as nat, 1) + (le(g.m, 8) + (le(
            g.gamma as nat,
            4,
        ) + (le(g.ef_construction, 8) + (le(g.dim, 8) + (le(g.max_layer, 8) + (le(
            g.seed as nat,
            8,
        ) + (le(g.rng as nat, 8) + (le(entry_code(g.entry_point), 8) + (le(g.nodes.len(), 8)
            + rest)))))))))))),
{
    let a1 = le(CODEC_MAGIC as nat, 4);
    let a2 = le(CODEC_VERSION as nat, 2);
    let a3 = le(g.metric.spec_code() as nat, 1);
    let a4 = le(reserved as nat, 1);
    let a5 = le(g.m, 8);
    let a6 = le(g.gamma as nat, 4);
    let a7 = le(g.ef_construction, 8);
    let a8 = le(g.dim, 8);
    let a9 = le(g.max_layer, 8);
    let b1 = le(g.seed as nat, 8);
    let b2 = le(g.rng as nat, 8);
    let b3 = le(entry_code(g.entry_point), 8);
    let b4 = le(g.nodes.len(), 8);
    let t4 = b4 + rest;
    let t3 = b3 + t4;
    let t2 = b2 + t3;
    let t1 = b1 + t2;
    let s9 = a9 + t1;
    let s8 = a8 + s9;
    let s7 = a7 + s8;
    let s6 = a6 + s7;
    let s5 = a5 + s6;
    let s4 = a4 + s5;
    let s3 = a3 + s4;
    let h2 = a1 + a2;
    let h3 = h2 + a3;
    let h4 = h3 + a4;
    let h5 = h4 + a5;
    let h6 = h5 + a6;
    let h7 = h6 + a7;
    let h8 = h7 + a8;
    let h9 = h8 + a9;
    let i1 = h9 + b1;
    let i2 = i1 + b2;
    let i3 = i2 + b3;
    lemma_assoc(i3, b4, rest);
    lemma_assoc(i2, b3, t4);
    lemma_assoc(i1, b2, t3);
    lemma_assoc(h9, b1, t2);
    lemma_assoc(h8, a9, t1);
    lemma_assoc(h7, a8, s9);
    lemma_assoc(h6, a7, s8);
    lemma_assoc(h5, a6, s7);
    lemma_assoc(h4, a5, s6);
    lemma_assoc(h3, a4, s5);
    lemma_assoc(h2, a3, s4);
    assert(a1 + a2 + s3 =~= a1 + (a2 + s3));
}

/// A header is 76 bytes long.
proof fn lemma_header_len(g: Graph, reserved: u8)
    ensures
        encode_header(g, reserved).len() == HEADER_LEN,
{
    broadcast use lemma_le_len;

}

/// The fields of a header are read back.
#[verifier::spinoff_prover]
proof fn lemma_header_fields(g: Graph, rest: Seq<u8>)
    requires
        g.valid(),
        g.max_layer <= u32::MAX,
    ensures
        ({
            let b = encode_header(g, 0) + rest;
            &&& b.len() >= HEADER_LEN
            &&& field(b, 0, 4) == CODEC_MAGIC
            &&& field(b, 4, 2) == CODEC_VERSION
            &&& Metric::spec_from_code(field(b, 6, 1) as u8) == Some(g.metric)
            &&& header_graph(b) == (Graph { nodes: Seq::empty(), ..g })
            &&& field(b, 68, 8) == g.nodes.len()
            &&& field(b, 60, 8) == entry_code(g.entry_point)
            &&& field(b, 44, 8) == g.seed
            &&& field(b, 52, 8) == g.rng
            &&& field(b, 16, 4) == g.gamma
            &&& b.skip(HEADER_LEN as int) == rest
        }),
{
    let b = encode_header(g, 0) + rest;
    lemma_byte_ranges();
    lemma_header_unfold(g, 0, rest);
    lemma_header_len(g, 0);
    assert(b.skip(0) =~= b);
    let t4 = le(g.nodes.len(), 8) + rest;
    let t3 = le(entry_code(g.entry_point), 8) + t4;
    let t2 = le(g.rng as nat, 8) + t3;
    let t1 = le(g.seed as nat, 8) + t2;
    let s9 = le(g.max_layer, 8) + t1;
    let s8 = le(g.dim, 8) + s9;
    let s7 = le(g.ef_construction, 8) + s8;
    let s6 = le(g.gamma as nat, 4) + s7;
    let s5 = le(g.m, 8) + s6;
    let s4 = le(0, 1) + s5;
    let s3 = le(g.metric.spec_code() as nat, 1) + s4;
    let s2 = le(CODEC_VERSION as nat, 2) + s3;
    lemma_field_there(b, 0, CODEC_MAGIC as nat, 4, s2);
    lemma_field_there(b, 4, CODEC_VERSION as nat, 2, s3);
    lemma_field_there(b, 6, g.metric.spec_code() as nat, 1, s4);
    lemma_field_there(b, 7, 0, 1, s5);
    lemma_field_there(b, 8, g.m, 8, s6);
    lemma_field_there(b, 16, g.gamma as nat, 4, s7);
    lemma_field_there(b, 20, g.ef_construction, 8, s8);
    lemma_field_there(b, 28, g.dim, 8, s9);
    lemma_field_there(b, 36, g.max_layer, 8, t1);
    lemma_field_there(b, 44, g.seed as nat, 8, t2);
    lemma_field_there(b, 52, g.rng as nat, 8, t3);
    lemma_field_there(b, 60, entry_code(g.entry_point), 8, t4);
    lemma_field_there(b, 68, g.nodes.len(), 8, rest);
    crate::vector::metric_code_round_trip(g.metric);
    assert(header_entry(b) == g.entry_point);
}

/// The header of a graph within the decoder's limits is read back.
proof fn lemma_header_there(g: Graph, rest: Seq<u8>)
    requires
        g.valid(),
        g.m <= HnswParams::MAX_M,
        g.cap(0) <= HnswParams::MAX_LAYER0_DEGREE,
        g.max_layer <= HnswParams::MAX_LAYER,
    ensures
        ({
            let b = encode_header(g, 0) + rest;
            &&& b.len() >= HEADER_LEN
            &&& header_fault(b) is None
            &&& header_graph(b) == (Graph { nodes: Seq::empty(), ..g })
            &&& field(b, 68, 8) == g.nodes.len()
            &&& b.skip(HEADER_LEN as int) == rest
        }),
{
    lemma_header_fields(g, rest);
}

/// Bytes with a sound header start with the header of the graph they announce.
#[verifier::spinoff_prover]
proof fn lemma_header_back(b: Seq<u8>, g: Graph)
    requires
        header_fault(b) is None,
        header_graph(b) == (Graph { nodes: Seq::empty(), ..g }),
        field(b, 68, 8) == g.nodes.len(),
    ensures
        b.len() >= HEADER_LEN,
        b == encode_header(g, b[7]) + b.skip(HEADER_LEN as int),
{
    lemma_byte_ranges();
    lemma_field_back(b, 0, 4);
    lemma_field_back(b, 4, 2);
    lemma_field_back(b, 6, 1);
    lemma_field_back(b, 7, 1);
    lemma_field_back(b, 8, 8);
    lemma_field_back(b, 16, 4);
    lemma_field_back(b, 20, 8);
    lemma_field_back(b, 28, 8);
    lemma_field_back(b, 36, 8);
    lemma_field_back(b, 44, 8);
    lemma_field_back(b, 52, 8);
    lemma_field_back(b, 60, 8);
    lemma_field_back(b, 68, 8);
    assert(b.skip(0) =~= b);
    assert(field(b, 7, 1) == b[7]) by {
        let one = b.subrange(7, 8);
        assert(one.drop_first() =~= Seq::<u8>::empty());
        assert(from_le(one) == one[0] as nat + 256 * from_le(one.drop_first()));
    }
    crate::vector::metric_codes_are_exact(field(b, 6, 1) as u8);
    assert(entry_code(g.entry_point) == field(b, 60, 8));
    lemma_header_unfold(g, b[7], b.skip(HEADER_LEN as int));
}

proof fn lemma_layers_of_concat(nodes: Seq<Node>, upto: int)
    requires
        0 <= upto < nodes.len(),
        forall|k: int| 0 <= k < nodes.len() ==> (#[trigger] nodes[k]).layers.len() >= 1,
    ensures
        layers_of(nodes.take(upto)) + nodes[upto].layers.len() <= layers_of(nodes),
        layers_of(nodes.take(upto)) + nodes[upto].layers.len() - (upto + 1) <= layers_of(nodes)
            - nodes.len(),
        upto <= layers_of(nodes.take(upto)),
    decreases nodes.len(),
{
    let head = nodes.drop_last();
    assert forall|k: int| 0 <= k < head.len() implies (#[trigger] head[k]).layers.len() >= 1 by {
        assert(head[k] == nodes[k]);
    }
    assert(nodes[nodes.len() - 1].layers.len() >= 1);
    if upto == nodes.len() - 1 {
        assert(nodes.take(upto) =~= head);
        lemma_layers_of_at_least(head);
    } else {
        lemma_layers_of_concat(head, upto);
        assert(head.take(upto) =~= nodes.take(upto));
    }
}

proof fn lemma_layers_of_at_least(nodes: Seq<Node>)
    requires
        forall|k: int| 0 <= k < nodes.len() ==> (#[trigger] nodes[k]).layers.len() >= 1,
    ensures
        layers_of(nodes) >= nodes.len(),
    decreases nodes.len(),
{
    if nodes.len() > 0 {
        let head = nodes.drop_last();
        assert forall|k: int| 0 <= k < head.len() implies (#[trigger] head[k]).layers.len()
            >= 1 by {
            assert(head[k] == nodes[k]);
        }
        assert(nodes[nodes.len() - 1].layers.len() >= 1);
        lemma_layers_of_at_least(head);
    }
}

/// The nodes of a decodable graph may be read back under any frame of its header
/// with slots enough.
proof fn lemma_nodes_fit(g: Graph, fr: Frame)
    requires
        g.valid(),
        g.layer_total() <= u32::MAX,
        fr.header.m == g.m,
        fr.header.gamma == g.gamma,
        fr.header.dim == g.dim,
        fr.header.max_layer == g.max_layer,
        g.max_layer <= HnswParams::MAX_LAYER,
        fr.n == g.nodes.len(),
        fr.slots(g.nodes.len(), g.layer_total()) <= fr.max_slots,
        forall|i: int|
            0 <= i < g.nodes.len() ==> (#[trigger] g.nodes[i]).attrs.len() <= usize::MAX,
    ensures
        nodes_fit(fr, g.nodes, Seq::empty()),
{
    let none = Seq::<Node>::empty();
    assert forall|k: int| 0 <= k < g.nodes.len() implies (#[trigger] g.nodes[k]).layers.len()
        >= 1 by {
        assert(g.node_ok(k));
    }
    assert forall|k: int| 0 <= k < g.nodes.len() implies #[trigger] node_fits(
        fr,
        g.nodes[k],
        none.len() + k as nat,
        layers_of(none + g.nodes.take(k)),
    ) by {
        let node = g.nodes[k];
        assert(none + g.nodes.take(k) =~= g.nodes.take(k));
        assert(g.node_ok(k));
        assert(lists_fit(fr, node.layers, 0)) by {
            assert forall|l: int| 0 <= l < node.layers.len() implies (
            #[trigger] node.layers[l]).len() <= fr.header.cap(0 + l) && node.layers[l].len()
                <= usize::MAX && (forall|i: int|
                0 <= i < node.layers[l].len() ==> (#[trigger] node.layers[l][i]) < fr.n) by {
                assert(g.list_ok(l, node.layers[l]));
            }
        }
        lemma_layers_of_concat(g.nodes, k);
        let layers = layers_of(g.nodes.take(k));
        let (w0, w1) = (fr.header.cap(0) + 1, fr.header.cap(1) + 1);
        assert((k + 1) * w0 <= g.nodes.len() * w0) by (nonlinear_arith)
            requires
                k + 1 <= g.nodes.len(),
                w0 >= 0,
        ;
        let up = layers + node.layers.len() - (k + 1);
        let total = layers_of(g.nodes) - g.nodes.len();
        assert(up * w1 <= total * w1) by (nonlinear_arith)
            requires
                up <= total,
                w1 >= 0,
        ;
    }
}

/// A graph within the decoder's limits comes back exactly as it was serialized.
pub proof fn decoding_inverts_encoding(g: Graph)
    requires
        decodable(g),
    ensures
        decode(encode(g), 0) == Ok::<Graph, HnswDecodeError>(g),
{
    let body = encode_nodes(g.nodes);
    let b = encode(g);
    lemma_header_there(g, body);
    let fr = frame_of(b, 0);
    lemma_nodes_fit(g, fr);
    assert(body + Seq::<u8>::empty() =~= body);
    lemma_nodes_there(g.nodes, fr, Seq::empty(), Seq::empty());
    assert(Seq::<Node>::empty() + g.nodes =~= g.nodes);
    assert(Graph { nodes: g.nodes, ..header_graph(b) } == g);
}

/// Nothing else decodes: bytes that stand for a graph are that graph's
/// serialization, except that the reserved byte is free, and the graph is within
/// the decoder's limits. A source that claims more bytes than it holds never
/// decodes.
pub proof fn only_serializations_decode(b: Seq<u8>, extra: nat)
    ensures
        decode(b, extra) matches Ok(g) ==> {
            &&& extra == 0
            &&& b.len() >= HEADER_LEN
            &&& b == encode_header(g, b[7]) + encode_nodes(g.nodes)
            &&& decodable(g)
        },
{
    if let Ok(g) = decode(b, extra) {
        let fr = frame_of(b, extra);
        let body = b.skip(HEADER_LEN as int);
        lemma_decoded_valid(b, extra);
        lemma_header_params(b);
        lemma_parse_nodes_ok(body, fr, Seq::empty());
        lemma_nodes_back(body, fr, Seq::empty());
        assert(g.nodes.skip(0) =~= g.nodes);
        assert(body =~= encode_nodes(g.nodes));
        lemma_header_back(b, g);
        if g.nodes.len() == 0 {
            assert(0 * (g.cap(0) + 1) == 0) by (nonlinear_arith);
            assert(0 * (g.cap(1) + 1) == 0) by (nonlinear_arith);
        }
    }
}

/// Bytes that decode are a header and the nodes.
proof fn lemma_decoded_body(b: Seq<u8>)
    requires
        decode(b, 0) is Ok,
    ensures
        b.len() >= HEADER_LEN,
        header_fault(b) is None,
        header_graph(b) == (Graph { nodes: Seq::empty(), ..decode(b, 0)->Ok_0 }),
        field(b, 68, 8) == decode(b, 0)->Ok_0.nodes.len(),
        b.skip(HEADER_LEN as int) == encode_nodes(decode(b, 0)->Ok_0.nodes),
        decodable(decode(b, 0)->Ok_0),
{
    let g = decode(b, 0)->Ok_0;
    only_serializations_decode(b, 0);
    lemma_header_len(g, b[7]);
    assert(b.skip(HEADER_LEN as int) =~= encode_nodes(g.nodes));
    lemma_parse_nodes_ok(b.skip(HEADER_LEN as int), frame_of(b, 0), Seq::empty());
    assert(header_graph(b) =~= (Graph { nodes: Seq::empty(), ..g }));
}

/// Nodes followed by more bytes than the header accounts for do not decode.
proof fn lemma_decode_trailing(c: Seq<u8>, nodes: Seq<Node>, rest: Seq<u8>)
    requires
        header_fault(c) is None,
        parse_nodes(c.skip(HEADER_LEN as int), frame_of(c, 0), Seq::empty()) == Ok::<
            (Seq<Node>, Seq<u8>),
            HnswDecodeError,
        >((nodes, rest)),
        rest.len() > 0,
    ensures
        decode(c, 0) == Err::<Graph, HnswDecodeError>(HnswDecodeError::Invalid("trailing bytes")),
{
}

/// Bytes after a complete serialization are an error of their own.
pub proof fn trailing_bytes_are_refused(b: Seq<u8>, more: Seq<u8>)
    requires
        decode(b, 0) is Ok,
        more.len() > 0,
    ensures
        decode(b + more, 0) == Err::<Graph, HnswDecodeError>(
            HnswDecodeError::Invalid("trailing bytes"),
        ),
{
    let g = decode(b, 0)->Ok_0;
    let c = b + more;
    let body = encode_nodes(g.nodes);
    let fr = frame_of(c, 0);
    lemma_decoded_body(b);
    assert(c.take(b.len() as int) =~= b);
    lemma_same_header(b, c);
    assert(c.skip(HEADER_LEN as int) == body + more) by {
        assert(c.skip(HEADER_LEN as int) =~= b.skip(HEADER_LEN as int) + more);
    }
    assert(parse_nodes(body + more, fr, Seq::empty()) == Ok::<
        (Seq<Node>, Seq<u8>),
        HnswDecodeError,
    >((g.nodes, more))) by {
        lemma_nodes_fit(g, fr);
        lemma_nodes_there(g.nodes, fr, more, Seq::empty());
        assert(Seq::<Node>::empty() + g.nodes =~= g.nodes);
    }
    lemma_decode_trailing(c, g.nodes, more);
}

/// A header looks the same whatever follows it.
proof fn lemma_same_header(b: Seq<u8>, c: Seq<u8>)
    requires
        b.len() >= HEADER_LEN,
        c.len() >= b.len(),
        c.take(b.len() as int) == b,
    ensures
        header_fault(c) == header_fault(b),
        header_graph(c) == header_graph(b),
        field(c, 68, 8) == field(b, 68, 8),
{
    assert forall|at: int, width: int| 0 <= at && 0 <= width && at + width <= HEADER_LEN implies
        #[trigger] field(c, at, width) == field(b, at, width) by {
        assert(c.subrange(at, at + width) =~= b.subrange(at, at + width)) by {
            assert forall|i: int| 0 <= i < width implies #[trigger] c.subrange(at, at + width)[i]
                == b.subrange(at, at + width)[i] by {
                assert(c.take(b.len() as int)[at + i] == b[at + i]);
            }
        }
    }
}

/// A serialization cut short anywhere does not decode.
pub proof fn truncations_are_refused(b: Seq<u8>, cut: int)
    requires
        decode(b, 0) is Ok,
        0 <= cut < b.len(),
    ensures
        decode(b.take(cut), 0) is Err,
{
    if decode(b.take(cut), 0) is Ok {
        trailing_bytes_are_refused(b.take(cut), b.skip(cut));
        assert(b.take(cut) + b.skip(cut) =~= b);
    }
}

/// Every index is storable.
pub proof fn indexes_are_storable(h: &Hnsw)
    requires
        h.wf(),
    ensures
        storable(h@),
{
    h.lemma_fits();
    assert forall|i: int| 0 <= i < h@.nodes.len() implies (#[trigger] h@.nodes[i]).attrs.len()
        <= usize::MAX by {
        h.lemma_row_len(i);
    }
}

/// Of all the prefixes of a serialization none but the whole decodes, and that
/// to the graph serialized.
proof fn lemma_decodes_whole(g: Graph, cut: int)
    requires
        storable(g),
        0 <= cut <= encode(g).len(),
        decode(encode(g).take(cut), 0) is Ok,
    ensures
        cut == encode(g).len(),
        decode(encode(g).take(cut), 0) == Ok::<Graph, HnswDecodeError>(g),
{
    let b = encode(g);
    let c = b.take(cut);
    let h = decode(c, 0)->Ok_0;
    let body = encode_nodes(g.nodes);
    lemma_decoded_body(c);
    if let Some(e) = g.entry_point {
        assert forall|k: int| 0 <= k < g.nodes.len() implies (#[trigger] g.nodes[k]).layers.len()
            >= 1 by {
            assert(g.node_ok(k));
        }
        lemma_layers_of_concat(g.nodes, e as int);
    }
    lemma_header_fields(g, body);
    lemma_same_header(c, b);
    assert(header_graph(c) == (Graph { nodes: Seq::empty(), ..h }));
    assert(header_graph(b) == (Graph { nodes: Seq::empty(), ..g }));
    assert(h.nodes.len() == g.nodes.len());
    assert(h.m == g.m && h.gamma == g.gamma && h.dim == g.dim && h.max_layer == g.max_layer
        && h.metric == g.metric && h.ef_construction == g.ef_construction && h.seed == g.seed
        && h.rng == g.rng && h.entry_point == g.entry_point) by {
        let (x, y) = (header_graph(c), header_graph(b));
        assert(x == y);
        assert(x.m == h.m && y.m == g.m);
    }
    let loose = Frame { header: header_graph(b), n: g.nodes.len(), extra: 0, max_slots: 0 };
    let (sg, sh) = (
        loose.slots(g.nodes.len(), g.layer_total()),
        loose.slots(h.nodes.len(), h.layer_total()),
    );
    let fr = Frame {
        max_slots: if sg > sh {
            if sg > 0 {
                sg as nat
            } else {
                0
            }
        } else {
            if sh > 0 {
                sh as nat
            } else {
                0
            }
        },
        ..loose
    };
    assert(fr.slots(g.nodes.len(), g.layer_total()) == sg);
    assert(fr.slots(h.nodes.len(), h.layer_total()) == sh);
    let rest = b.skip(cut);
    assert(body =~= c.skip(HEADER_LEN as int) + rest) by {
        assert(b.skip(HEADER_LEN as int) =~= c.skip(HEADER_LEN as int) + rest);
    }
    lemma_nodes_fit(g, fr);
    lemma_nodes_fit(h, fr);
    assert(body + Seq::<u8>::empty() =~= body);
    lemma_nodes_there(g.nodes, fr, Seq::empty(), Seq::empty());
    lemma_nodes_there(h.nodes, fr, rest, Seq::empty());
    assert(Seq::<Node>::empty() + g.nodes =~= g.nodes);
    assert(Seq::<Node>::empty() + h.nodes =~= h.nodes);
    assert(rest.len() == 0);
    assert(h == g);
}

/// No proper prefix of a serialization decodes, whatever the graph: not even
/// where the whole is beyond the decoder's limits.
pub proof fn prefixes_of_a_serialization_are_refused(g: Graph, cut: int)
    requires
        storable(g),
        0 <= cut < encode(g).len(),
    ensures
        decode(encode(g).take(cut), 0) is Err,
{
    if decode(encode(g).take(cut), 0) is Ok {
        lemma_decodes_whole(g, cut);
    }
}

/// A serialization that decodes at all decodes to the graph it was made of,
/// generator state included.
pub proof fn what_decodes_is_what_was_serialized(g: Graph)
    requires
        storable(g),
    ensures
        decode(encode(g), 0) matches Ok(h) ==> h == g,
{
    if decode(encode(g), 0) is Ok {
        assert(encode(g).take(encode(g).len() as int) =~= encode(g));
        lemma_decodes_whole(g, encode(g).len() as int);
    }
}

/// A restored graph goes on exactly as the one it was saved from: whatever rows
/// follow, every insert answers alike, and both serialize alike afterwards.
pub proof fn restored_graphs_insert_alike(b: Builder, g: Graph, rows: Seq<Row>, next: Seq<u32>)
    requires
        storable(g),
    ensures
        decode(encode(g), 0) matches Ok(h) ==> {
            &&& b.insert_all(h, rows) == b.insert_all(g, rows)
            &&& b.insert_result(b.insert_all(h, rows), next) == b.insert_result(
                b.insert_all(g, rows),
                next,
            )
            &&& encode(b.insert_all(h, rows)) == encode(b.insert_all(g, rows))
        },
{
    what_decodes_is_what_was_serialized(g);
}

proof fn lemma_ids_len(ids: Seq<u32>)
    ensures
        encode_ids(ids).len() == 8 * ids.len(),
    decreases ids.len(),
{
    if ids.len() > 0 {
        lemma_le_len(ids[0] as nat, 8);
        lemma_ids_len(ids.drop_first());
    }
}

proof fn lemma_components_len(v: Seq<u32>)
    ensures
        encode_components(v).len() == 4 * v.len(),
    decreases v.len(),
{
    if v.len() > 0 {
        lemma_le_len(v[0] as nat, 4);
        lemma_components_len(v.drop_first());
    }
}

proof fn lemma_lists_len_front(lists: Seq<Seq<u32>>)
    ensures
        lists.len() > 0 ==> lists_len(lists) == 8 + 8 * lists[0].len() + lists_len(
            lists.drop_first(),
        ),
    decreases lists.len(),
{
    if lists.len() > 1 {
        lemma_lists_len_front(lists.drop_last());
        assert(lists.drop_last().drop_first() =~= lists.drop_first().drop_last());
        assert(lists.drop_first().last() == lists.last());
    } else if lists.len() == 1 {
        assert(lists.drop_last() =~= Seq::<Seq<u32>>::empty());
        assert(lists.drop_first() =~= Seq::<Seq<u32>>::empty());
    }
}

proof fn lemma_encode_lists_len(lists: Seq<Seq<u32>>)
    ensures
        encode_lists(lists).len() == lists_len(lists),
    decreases lists.len(),
{
    if lists.len() > 0 {
        lemma_le_len(lists[0].len(), 8);
        lemma_ids_len(lists[0]);
        lemma_encode_lists_len(lists.drop_first());
        lemma_lists_len_front(lists);
    }
}

/// How many values of a row are `Null`.
pub open spec fn nulls_in(row: Seq<AttrValue>) -> nat
    decreases row.len(),
{
    if row.len() == 0 {
        0
    } else {
        nulls_in(row.drop_first()) + (if row[0] is Null {
            1nat
        } else {
            0
        })
    }
}

/// How many attribute values of all nodes are `Null`.
pub open spec fn null_total(nodes: Seq<Node>) -> nat
    decreases nodes.len(),
{
    if nodes.len() == 0 {
        0
    } else {
        nulls_in(nodes[0].attrs) + null_total(nodes.drop_first())
    }
}

proof fn lemma_encode_values_len(row: Seq<AttrValue>)
    ensures
        encode_values(row).len() + 8 * nulls_in(row) == 9 * row.len(),
    decreases row.len(),
{
    if row.len() > 0 {
        lemma_value_there(row[0], Seq::empty());
        lemma_encode_values_len(row.drop_first());
    }
}

proof fn lemma_hint_front(nodes: Seq<Node>, dim: nat)
    ensures
        nodes.len() > 0 ==> nodes_len_hint(nodes, dim) == 17 + dim * 4 + lists_len(
            nodes[0].layers,
        ) + nodes[0].attrs.len() * 9 + nodes_len_hint(nodes.drop_first(), dim),
    decreases nodes.len(),
{
    if nodes.len() > 1 {
        lemma_hint_front(nodes.drop_last(), dim);
        assert(nodes.drop_last().drop_first() =~= nodes.drop_first().drop_last());
        assert(nodes.drop_first().last() == nodes.last());
    } else if nodes.len() == 1 {
        assert(nodes.drop_last() =~= Seq::<Node>::empty());
        assert(nodes.drop_first() =~= Seq::<Node>::empty());
    }
}

proof fn lemma_nodes_len(nodes: Seq<Node>, dim: nat)
    requires
        forall|k: int| 0 <= k < nodes.len() ==> (#[trigger] nodes[k]).vector.len() == dim,
    ensures
        encode_nodes(nodes).len() + 8 * null_total(nodes) == nodes_len_hint(nodes, dim),
    decreases nodes.len(),
{
    broadcast use lemma_le_len;

    if nodes.len() > 0 {
        let tail = nodes.drop_first();
        assert forall|k: int| 0 <= k < tail.len() implies (#[trigger] tail[k]).vector.len()
            == dim by {
            assert(tail[k] == nodes[k + 1]);
        }
        lemma_nodes_len(tail, dim);
        let node = nodes[0];
        lemma_components_len(node.vector);
        lemma_encode_lists_len(node.layers);
        lemma_encode_values_len(node.attrs);
        lemma_hint_front(nodes, dim);
    }
}

/// The length hint overstates by eight bytes for every `Null` and by nothing
/// else: it never understates, and is exact when no row holds a `Null`.
pub proof fn the_length_hint_counts_nulls(g: Graph)
    requires
        g.valid(),
    ensures
        g.len_hint() == encode(g).len() + 8 * null_total(g.nodes),
{
    lemma_header_len(g, 0);
    assert forall|k: int| 0 <= k < g.nodes.len() implies (#[trigger] g.nodes[k]).vector.len()
        == g.dim by {
        assert(g.node_ok(k));
    }
    lemma_nodes_len(g.nodes, g.dim);
}

/// A serialization starts with 76 bytes: the letters `WNHB`, version 2, the
/// metric's number, a zero, and then the degree, the density's bits, the candidate
/// pool, the dimensionality, the top layer, the seed, the generator's state, the
/// entry point, or all ones for none, and the node count.
pub proof fn serializations_start_with_a_header(g: Graph)
    ensures
        encode(g).len() >= 76,
        encode(g).take(76) == seq![0x57u8, 0x4Eu8, 0x48u8, 0x42u8, 2u8, 0u8] + seq![
            match g.metric {
                Metric::L2 => 0u8,
                Metric::Cosine => 1u8,
                Metric::InnerProduct => 2u8,
            },
            0u8,
        ] + le(g.m, 8) + le(g.gamma as nat, 4) + le(g.ef_construction, 8) + le(g.dim, 8) + le(
            g.max_layer,
            8,
        ) + le(g.seed as nat, 8) + le(g.rng as nat, 8) + le(
            if g.entry_point is Some {
                g.entry_point->0 as nat
            } else {
                0xffff_ffff_ffff_ffff
            },
            8,
        ) + le(g.nodes.len(), 8),
        encode(g).skip(76) == encode_nodes(g.nodes),
{
    broadcast use crate::bytes::lemma_le_len;

    lemma_header_len(g, 0);
    reveal_with_fuel(le, 5);
    assert(le(0x4248_4E57, 4) =~= seq![0x57u8, 0x4Eu8, 0x48u8, 0x42u8]);
    assert(le(2, 2) =~= seq![2u8, 0u8]);
    assert(le(0, 1) =~= seq![0u8]);
    assert(le(1, 1) =~= seq![1u8]);
    assert(le(2, 1) =~= seq![2u8]);
    let head = encode_header(g, 0);
    assert(encode(g).take(76) =~= head);
    assert(encode(g).skip(76) =~= encode_nodes(g.nodes));
    assert(head =~= seq![0x57u8, 0x4Eu8, 0x48u8, 0x42u8, 2u8, 0u8] + seq![
        match g.metric {
            Metric::L2 => 0u8,
            Metric::Cosine => 1u8,
            Metric::InnerProduct => 2u8,
        },
        0u8,
    ] + le(g.m, 8) + le(g.gamma as nat, 4) + le(g.ef_construction, 8) + le(g.dim, 8) + le(
        g.max_layer,
        8,
    ) + le(g.seed as nat, 8) + le(g.rng as nat, 8) + le(
        if g.entry_point is Some {
            g.entry_point->0 as nat
        } else {
            0xffff_ffff_ffff_ffff
        },
        8,
    ) + le(g.nodes.len(), 8));
}

/// Nodes follow one another, each a tombstone byte, its layer count, its
/// components in four bytes each, its lists, its attribute count and its
/// attributes.
pub proof fn serialized_nodes_follow_one_another(node: Node, rest: Seq<Node>)
    ensures
        encode_nodes(Seq::empty()) == Seq::<u8>::empty(),
        encode_nodes(seq![node] + rest) == seq![
            if node.deleted {
                1u8
            } else {
                0u8
            },
        ] + le(node.layers.len(), 8) + encode_components(node.vector) + encode_lists(node.layers)
            + le(node.attrs.len(), 8) + encode_values(node.attrs) + encode_nodes(rest),
{
    reveal_with_fuel(le, 2);
    assert(le(0, 1) =~= seq![0u8]);
    assert(le(1, 1) =~= seq![1u8]);
    let all = seq![node] + rest;
    assert(all.drop_first() =~= rest);
    assert(encode_nodes(all) == encode_node(node) + encode_nodes(rest));
}

/// Components, ids, lists and attribute values follow one another: a component in
/// four bytes; an id in eight; a list as its length in eight bytes and its ids; a
/// value as a tag and, unless it is null, eight bytes, an integer's in two's
/// complement.
pub proof fn serialized_parts_follow_one_another(
    x: u32,
    xs: Seq<u32>,
    list: Seq<u32>,
    lists: Seq<Seq<u32>>,
    v: AttrValue,
    vs: Seq<AttrValue>,
)
    ensures
        encode_components(Seq::empty()) == Seq::<u8>::empty(),
        encode_components(seq![x] + xs) == le(x as nat, 4) + encode_components(xs),
        encode_ids(Seq::empty()) == Seq::<u8>::empty(),
        encode_ids(seq![x] + xs) == le(x as nat, 8) + encode_ids(xs),
        encode_lists(Seq::empty()) == Seq::<u8>::empty(),
        encode_lists(seq![list] + lists) == le(list.len(), 8) + encode_ids(list) + encode_lists(
            lists,
        ),
        encode_values(Seq::empty()) == Seq::<u8>::empty(),
        encode_values(seq![v] + vs) == (match v {
            AttrValue::Null => seq![0u8],
            AttrValue::Int(i) => seq![1u8] + le(
                (if i < 0 {
                    i + 0x1_0000_0000_0000_0000
                } else {
                    i as int
                }) as nat,
                8,
            ),
            AttrValue::Float(bits) => seq![2u8] + le(bits as nat, 8),
        }) + encode_values(vs),
{
    reveal_with_fuel(le, 2);
    assert(le(0, 1) =~= seq![0u8]);
    assert(le(1, 1) =~= seq![1u8]);
    assert(le(2, 1) =~= seq![2u8]);
    assert((seq![x] + xs).drop_first() =~= xs);
    assert((seq![list] + lists).drop_first() =~= lists);
    assert((seq![v] + vs).drop_first() =~= vs);
}

/// What can be read back, by its numbers: a degree of at most 128, a bottom degree
/// cap of at most 2048, a top layer of at most 64, and no more link slots than
/// there are bytes of nodes and 4194304.
pub proof fn limits_of_reading_back(g: Graph)
    requires
        g.valid(),
        g.layer_total() <= u32::MAX,
        forall|i: int|
            0 <= i < g.nodes.len() ==> (#[trigger] g.nodes[i]).attrs.len() <= usize::MAX,
        encode_nodes(g.nodes).len() + 4_194_304 <= usize::MAX,
    ensures
        decode(encode(g), 0) == Ok::<Graph, HnswDecodeError>(g) <==> {
            &&& g.m <= 128
            &&& g.cap(0) <= 2048
            &&& g.max_layer <= 64
            &&& g.nodes.len() * (g.cap(0) + 1) + (g.layer_total() - g.nodes.len()) * (g.cap(1) + 1)
                <= encode_nodes(g.nodes).len() + 4_194_304
        },
{
    if decodable(g) {
        decoding_inverts_encoding(g);
    }
    only_serializations_decode(encode(g), 0);
}

/// Bytes that do not start with the letters are no graph, and those of another
/// version name it.
pub proof fn other_formats_are_refused(b: Seq<u8>, extra: nat)
    ensures
        b.len() < 4 ==> decode(b, extra) == Err::<Graph, HnswDecodeError>(
            HnswDecodeError::Truncated,
        ),
        b.len() >= 4 && b.take(4) != seq![0x57u8, 0x4Eu8, 0x48u8, 0x42u8] ==> decode(b, extra)
            == Err::<Graph, HnswDecodeError>(HnswDecodeError::BadMagic),
        b.len() >= 6 && b.take(4) == seq![0x57u8, 0x4Eu8, 0x48u8, 0x42u8] && (b[4] != 2 || b[5]
            != 0) ==> decode(b, extra) == Err::<Graph, HnswDecodeError>(
            HnswDecodeError::UnsupportedVersion { got: (b[4] + 256 * b[5]) as u16 },
        ),
{
    if b.len() >= 4 {
        reveal_with_fuel(le, 5);
        assert(le(0x4248_4E57, 4) =~= seq![0x57u8, 0x4Eu8, 0x48u8, 0x42u8]);
        assert(b.subrange(0, 4) =~= b.take(4));
        crate::bytes::lemma_le_of_from_le(b.take(4));
        crate::bytes::lemma_byte_ranges();
        crate::bytes::lemma_from_le_of_le(0x4248_4E57, 4);
        assert(field(b, 0, 4) == CODEC_MAGIC <==> b.take(4) == seq![0x57u8, 0x4Eu8, 0x48u8, 0x42u8]);
    }
    if b.len() >= 6 {
        let v = b.subrange(4, 6);
        reveal_with_fuel(from_le, 3);
        assert(v.drop_first().drop_first() =~= Seq::<u8>::empty());
        assert(from_le(v) == b[4] as nat + 256 * b[5] as nat);
    }
}

} // verus!
