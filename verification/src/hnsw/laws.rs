//! What holds across inserts, deletes and rebuilds.

use super::beam::BeamState;
use super::graph::{deleted_in, Graph, Hnsw, Node};
use super::insert::{ids_of, lemma_live_rows, live_rows, narrow, Builder, Row};
use super::params::{effective_gamma, HnswParams};
use super::search::{search_result, Walk};
use crate::filter::AttrValue;
use crate::floats::F32_ONE;
use vstd::arithmetic::power2::pow2;
use vstd::prelude::*;

verus! {

/// An insert either refuses and leaves every node as it was, or adds exactly one
/// node at the end: ids are dense, in insertion order. The node is live and
/// carries the vector and the row it was given, and no other node's vector, row,
/// tombstone flag or layer count changes.
pub proof fn insert_adds_one_node(b: Builder, g: Graph, vector: Seq<u32>, attrs: Seq<AttrValue>)
    requires
        g.valid(),
    ensures
        match b.insert_result(g, vector) {
            Ok(id) => {
                let h = b.inserted(g, vector, attrs);
                &&& id == g.nodes.len()
                &&& h.nodes.len() == g.nodes.len() + 1
                &&& h.dim == vector.len()
                &&& h.nodes[id as int].vector == vector
                &&& h.nodes[id as int].attrs == attrs
                &&& !h.nodes[id as int].deleted
                &&& forall|k: int|
                    0 <= k < g.nodes.len() ==> {
                        &&& (#[trigger] h.nodes[k]).vector == g.nodes[k].vector
                        &&& h.nodes[k].attrs == g.nodes[k].attrs
                        &&& h.nodes[k].deleted == g.nodes[k].deleted
                        &&& h.nodes[k].layers.len() == g.nodes[k].layers.len()
                    }
            },
            Err(_) => b.inserted(g, vector, attrs).nodes == g.nodes,
        },
        b.refusal(g, vector) is Some ==> b.inserted(g, vector, attrs) == g,
{
    b.lemma_inserted(g, vector, attrs);
    if b.insert_result(g, vector) is Ok {
        let h = b.inserted(g, vector, attrs);
        let with = b.placed(b.drawn(g, vector.len()), vector, attrs, b.next_level(g));
        assert(h.same_frame(with));
        assert forall|k: int| 0 <= k <= g.nodes.len() implies (#[trigger] h.nodes[k]).vector
            == with.nodes[k].vector && h.nodes[k].attrs == with.nodes[k].attrs
            && h.nodes[k].deleted == with.nodes[k].deleted && h.nodes[k].layers.len()
            == with.nodes[k].layers.len() by {}
    }
}

/// The degree cap holds on every layer of every node, whatever was inserted.
pub proof fn inserts_keep_the_degree_cap(
    b: Builder,
    g: Graph,
    vector: Seq<u32>,
    attrs: Seq<AttrValue>,
    id: int,
    layer: int,
)
    requires
        g.valid(),
    ensures
        b.inserted(g, vector, attrs).neighbors(id, layer).len() <= g.cap(layer),
{
    b.lemma_inserted(g, vector, attrs);
    let h = b.inserted(g, vector, attrs);
    if 0 <= id < h.nodes.len() && 0 <= layer < h.nodes[id].layers.len() {
        assert(h.node_ok(id));
        assert(h.list_ok(layer, h.nodes[id].layers[layer]));
    }
}

/// A rebuild keeps exactly the live rows, in order, and leaves no tombstones.
pub proof fn compaction_keeps_the_live_rows(b: Builder, g: Graph)
    requires
        g.valid(),
    ensures
        b.compacted(g).valid(),
        b.compacted(g).layered(),
        b.compacted(g).nodes.len() == g.nodes.len() - g.deleted_count(),
        b.compacted(g).deleted_count() == 0,
        live_rows(b.compacted(g).nodes) == live_rows(g.nodes),
{
    let rows = live_rows(g.nodes);
    let blank = Graph::empty(g.rebuild_params());
    super::params::clamping_keeps_what_is_in_range(g.gamma);
    assert forall|i: int| 0 <= i < g.nodes.len() implies (#[trigger] g.nodes[i]).vector.len()
        == g.dim by {
        assert(g.node_ok(i));
    }
    lemma_live_rows(g.nodes, g.dim);
    if g.nodes.len() > 0 {
        b.lemma_insert_all(blank, rows, g.dim);
        lemma_rows_of(b.compacted(g).nodes, rows);
    }
}

/// Live nodes that carry these rows have these live rows.
proof fn lemma_rows_of(nodes: Seq<Node>, rows: Seq<Row>)
    requires
        nodes.len() == rows.len(),
        forall|i: int|
            0 <= i < rows.len() ==> {
                &&& (#[trigger] nodes[i]).vector == rows[i].vector
                &&& nodes[i].attrs == rows[i].attrs
                &&& !nodes[i].deleted
            },
    ensures
        live_rows(nodes) == rows,
        deleted_in(nodes) == 0,
    decreases nodes.len(),
{
    if nodes.len() > 0 {
        let head = nodes.drop_last();
        let before = rows.drop_last();
        assert forall|i: int| 0 <= i < before.len() implies {
            &&& (#[trigger] head[i]).vector == before[i].vector
            &&& head[i].attrs == before[i].attrs
            &&& !head[i].deleted
        } by {
            assert(head[i] == nodes[i]);
        }
        lemma_rows_of(head, before);
        assert(!nodes[nodes.len() - 1].deleted);
        assert(rows =~= before.push(rows.last()));
    } else {
        assert(rows =~= Seq::<Row>::empty());
    }
}

impl Graph {
    /// The two graphs differ at most in their attribute rows.
    pub open spec fn alike(self, other: Graph) -> bool {
        &&& self.metric == other.metric
        &&& self.m == other.m
        &&& self.gamma == other.gamma
        &&& self.ef_construction == other.ef_construction
        &&& self.dim == other.dim
        &&& self.seed == other.seed
        &&& self.rng == other.rng
        &&& self.entry_point == other.entry_point
        &&& self.max_layer == other.max_layer
        &&& self.nodes.len() == other.nodes.len()
        &&& forall|id: int|
            0 <= id < self.nodes.len() ==> {
                &&& (#[trigger] self.nodes[id]).vector == other.nodes[id].vector
                &&& self.nodes[id].layers == other.nodes[id].layers
                &&& self.nodes[id].deleted == other.nodes[id].deleted
            }
    }
}

impl Walk {
    /// Unfiltered searches for the same thing in graphs that differ at most in
    /// attribute rows.
    pub open spec fn twin(self, other: Walk) -> bool {
        &&& self.graph.alike(other.graph)
        &&& self.dist == other.dist
        &&& self.query == other.query
        &&& self.filter is None
        &&& other.filter is None
        &&& self.graph.valid()
    }

    proof fn lemma_twin_neighbors(self, other: Walk, id: int, layer: int)
        requires
            self.twin(other),
        ensures
            self.graph.neighbors(id, layer) == other.graph.neighbors(id, layer),
    {
        if 0 <= id < self.graph.nodes.len() {
            assert(self.graph.nodes[id].layers == other.graph.nodes[id].layers);
        }
    }

    proof fn lemma_twin_visit_all(self, other: Walk, b: BeamState, ids: Seq<u32>)
        requires
            self.twin(other),
            forall|i: int| 0 <= i < ids.len() ==> (#[trigger] ids[i]) < self.graph.nodes.len(),
        ensures
            self.visit_all(b, ids) == other.visit_all(b, ids),
        decreases ids.len(),
    {
        if ids.len() > 0 {
            let head = ids.drop_last();
            assert forall|i: int| 0 <= i < head.len() implies (#[trigger] head[i])
                < self.graph.nodes.len() by {
                assert(head[i] == ids[i]);
            }
            self.lemma_twin_visit_all(other, b, head);
            let id = ids.last() as int;
            assert(ids[ids.len() - 1] < self.graph.nodes.len());
            assert(self.graph.nodes[id].vector == other.graph.nodes[id].vector);
        }
    }

    proof fn lemma_twin_seed_all(self, other: Walk, b: BeamState, ids: Seq<usize>)
        requires
            self.twin(other),
            forall|i: int| 0 <= i < ids.len() ==> (#[trigger] ids[i]) < self.graph.nodes.len(),
        ensures
            self.seed_all(b, ids) == other.seed_all(b, ids),
        decreases ids.len(),
    {
        if ids.len() > 0 {
            let head = ids.drop_last();
            assert forall|i: int| 0 <= i < head.len() implies (#[trigger] head[i])
                < self.graph.nodes.len() by {
                assert(head[i] == ids[i]);
            }
            self.lemma_twin_seed_all(other, b, head);
            let id = ids.last() as int;
            assert(ids[ids.len() - 1] < self.graph.nodes.len());
            assert(self.graph.nodes[id].vector == other.graph.nodes[id].vector);
        }
    }

    proof fn lemma_twin_drain(self, other: Walk, b: BeamState, layer: int, pops: nat)
        requires
            self.twin(other),
        ensures
            self.drain(b, layer, pops) == other.drain(b, layer, pops),
        decreases pops,
    {
        if !(pops == 0 || b.frontier.len() == 0 || self.finished(b)) {
            let id = b.frontier[0].id as int;
            self.lemma_twin_neighbors(other, id, layer);
            self.graph.lemma_links_in_range(id, layer);
            self.lemma_twin_visit_all(other, b.pop(), self.graph.neighbors(id, layer));
            self.lemma_twin_drain(
                other,
                self.expand(b.pop(), id, layer),
                layer,
                (pops - 1) as nat,
            );
        }
    }

    proof fn lemma_twin_layer(self, other: Walk, eps: Seq<usize>, ef: nat, layer: int)
        requires
            self.twin(other),
            forall|i: int| 0 <= i < eps.len() ==> (#[trigger] eps[i]) < self.graph.nodes.len(),
        ensures
            self.layer(eps, ef, layer) == other.layer(eps, ef, layer),
            forall|i: int|
                0 <= i < ids_of(self.layer(eps, ef, layer)).len() ==> (#[trigger] ids_of(
                    self.layer(eps, ef, layer),
                )[i]) < self.graph.nodes.len(),
    {
        self.lemma_twin_seed_all(other, BeamState::new(ef, 0), eps);
        self.lemma_twin_drain(
            other,
            self.seed_all(BeamState::new(ef, 0), eps),
            layer,
            self.graph.nodes.len(),
        );
        let p = |x: int| true;
        self.lemma_layer_found(eps, ef, layer, p);
        let found = self.layer(eps, ef, layer);
        assert forall|i: int| 0 <= i < ids_of(found).len() implies (#[trigger] ids_of(found)[i])
            < self.graph.nodes.len() by {
            let c = found[i];
        }
    }

    proof fn lemma_twin_descend(self, other: Walk, eps: Seq<usize>, top: int, bottom: int)
        requires
            self.twin(other),
            forall|i: int| 0 <= i < eps.len() ==> (#[trigger] eps[i]) < self.graph.nodes.len(),
        ensures
            self.descend(eps, top, bottom) == other.descend(eps, top, bottom),
            forall|i: int|
                0 <= i < self.descend(eps, top, bottom).len() ==> (#[trigger] self.descend(
                    eps,
                    top,
                    bottom,
                )[i]) < self.graph.nodes.len(),
        decreases top - bottom + 1,
    {
        if top >= bottom {
            self.lemma_twin_layer(other, eps, 1, top);
            let found = self.layer(eps, 1, top);
            let next = if found.len() > 0 {
                seq![found[0].id]
            } else {
                eps
            };
            assert forall|i: int| 0 <= i < next.len() implies (#[trigger] next[i])
                < self.graph.nodes.len() by {
                if found.len() > 0 {
                    assert(ids_of(found)[0] < self.graph.nodes.len());
                }
            }
            self.lemma_twin_descend(other, next, top - 1, bottom);
        }
    }
}

impl Builder {
    proof fn lemma_alike_links(self, g: Graph, h: Graph, id: int, layer: int, list: Seq<u32>)
        requires
            g.alike(h),
            0 <= id < g.nodes.len(),
        ensures
            g.with_links(id, layer, list).alike(h.with_links(id, layer, list)),
    {
        let x = g.with_links(id, layer, list);
        let y = h.with_links(id, layer, list);
        assert forall|k: int| 0 <= k < x.nodes.len() implies {
            &&& (#[trigger] x.nodes[k]).vector == y.nodes[k].vector
            &&& x.nodes[k].layers == y.nodes[k].layers
            &&& x.nodes[k].deleted == y.nodes[k].deleted
        } by {
            assert(g.nodes[k].layers == h.nodes[k].layers);
        }
    }

    proof fn lemma_alike_appended(self, g: Graph, h: Graph, n: int, id: u32, layer: int)
        requires
            g.alike(h),
            g.valid(),
            g.layered(),
            g.on_layer(n, layer),
            g.on_layer(id as int, layer),
            layer >= 0,
        ensures
            self.appended(g, n, id, layer) == self.appended(h, n, id, layer),
    {
        assert(g.nodes[n].layers == h.nodes[n].layers);
        assert(g.node_ok(n));
        assert(g.list_ok(layer, g.nodes[n].layers[layer]));
        let list = g.nodes[n].layers[layer].push(id);
        let cands = self.scored(g, n, list);
        assert forall|i: int| 0 <= i < cands.len() implies (#[trigger] cands[i]).id
            < g.nodes.len() && cands[i] == self.scored(h, n, list)[i] by {
            assert(list[i] < g.nodes.len());
            assert(g.nodes[list[i] as int].vector == h.nodes[list[i] as int].vector);
            assert(g.nodes[n].vector == h.nodes[n].vector);
        }
        assert(cands =~= self.scored(h, n, list));
        self.lemma_select_same(g, h, cands, g.cap(layer));
    }

    proof fn lemma_alike_link_back(
        self,
        g: Graph,
        h: Graph,
        chosen: Seq<usize>,
        id: u32,
        layer: int,
    )
        requires
            g.alike(h),
            g.valid(),
            g.layered(),
            layer >= 0,
            g.on_layer(id as int, layer),
            g.all_on_layer(chosen, layer),
        ensures
            self.link_back(g, chosen, id, layer).alike(self.link_back(h, chosen, id, layer)),
        decreases chosen.len(),
    {
        if chosen.len() > 0 {
            let head = chosen.drop_last();
            assert(g.all_on_layer(head, layer)) by {
                assert forall|i: int| 0 <= i < head.len() implies g.on_layer(
                    #[trigger] head[i] as int,
                    layer,
                ) by {
                    assert(head[i] == chosen[i]);
                }
            }
            self.lemma_alike_link_back(g, h, head, id, layer);
            self.lemma_link_back(g, head, id, layer);
            let x = self.link_back(g, head, id, layer);
            let y = self.link_back(h, head, id, layer);
            let n = chosen.last() as int;
            assert(g.on_layer(chosen[chosen.len() - 1] as int, layer));
            assert(x.nodes[n].layers.len() == g.nodes[n].layers.len());
            assert(x.nodes[id as int].layers.len() == g.nodes[id as int].layers.len());
            self.lemma_alike_appended(x, y, n, id, layer);
            self.lemma_alike_links(x, y, n, layer, self.appended(x, n, id, layer));
        }
    }

    proof fn lemma_alike_connect(
        self,
        g: Graph,
        h: Graph,
        id: int,
        eps: Seq<usize>,
        entry: usize,
        layer: int,
    )
        requires
            g.alike(h),
            g.valid(),
            g.layered(),
            g.on_layer(id, layer),
            g.all_on_layer(eps, layer),
            g.on_layer(entry as int, layer),
        ensures
            self.connect(g, id, eps, entry, layer).alike(self.connect(h, id, eps, entry, layer)),
        decreases layer + 1,
    {
        if layer >= 0 {
            let w = self.around(g, id);
            let u = self.around(h, id);
            assert(g.nodes[id].vector == h.nodes[id].vector);
            assert(w.twin(u));
            assert forall|i: int| 0 <= i < eps.len() implies (#[trigger] eps[i])
                < g.nodes.len() by {
                assert(g.on_layer(eps[i] as int, layer));
            }
            w.lemma_twin_layer(u, eps, g.ef_construction, layer);
            let found = w.layer(eps, g.ef_construction, layer);
            assert forall|i: int| 0 <= i < found.len() implies (#[trigger] found[i]).id
                < g.nodes.len() by {
                assert(ids_of(found)[i] < g.nodes.len());
            }
            self.lemma_select_same(g, h, found, g.cap(layer));
            let chosen = self.select(g, found, g.cap(layer));
            self.lemma_found_on_layer(w, eps, g.ef_construction, layer);
            self.lemma_link(g, chosen, id, layer);
            self.lemma_alike_links(g, h, id, layer, narrow(chosen));
            let x = g.with_links(id, layer, narrow(chosen));
            let y = h.with_links(id, layer, narrow(chosen));
            assert(x.nodes[id].layers.len() == g.nodes[id].layers.len());
            self.lemma_alike_link_back(x, y, chosen, id as u32, layer);
            let next = if found.len() == 0 {
                seq![entry]
            } else {
                ids_of(found)
            };
            super::insert::lemma_next_entry(g, self.link(g, chosen, id, layer), found, entry, layer);
            self.lemma_alike_connect(
                self.link(g, chosen, id, layer),
                self.link(h, chosen, id, layer),
                id,
                next,
                entry,
                layer - 1,
            );
        }
    }
}

/// Attribute rows do not influence the graph: inserting the same vector into
/// graphs that differ at most in their rows, with any two rows, leads to graphs
/// that differ at most in their rows, and to the same answer.
pub proof fn attributes_do_not_shape_the_graph(
    b: Builder,
    g: Graph,
    h: Graph,
    vector: Seq<u32>,
    row: Seq<AttrValue>,
    other: Seq<AttrValue>,
)
    requires
        g.valid(),
        g.layered(),
        g.alike(h),
    ensures
        b.inserted(g, vector, row).alike(b.inserted(h, vector, other)),
        b.insert_result(g, vector) == b.insert_result(h, vector),
{
    if b.insert_result(g, vector) is Ok {
        let level = b.next_level(g);
        let x = b.placed(b.drawn(g, vector.len()), vector, row, level);
        let y = b.placed(b.drawn(h, vector.len()), vector, other, level);
        assert(x.alike(y)) by {
            assert forall|k: int| 0 <= k < x.nodes.len() implies {
                &&& (#[trigger] x.nodes[k]).vector == y.nodes[k].vector
                &&& x.nodes[k].layers == y.nodes[k].layers
                &&& x.nodes[k].deleted == y.nodes[k].deleted
            } by {
                if k < g.nodes.len() {
                    assert(x.nodes[k] == g.nodes[k]);
                    assert(y.nodes[k] == h.nodes[k]);
                    assert(g.nodes[k].vector == h.nodes[k].vector);
                }
            }
        }
        if let Some(e) = g.entry_point {
            super::insert::lemma_entry_for_insert(b, g, vector, row);
            let id = g.nodes.len() as int;
            let w = b.around(x, id);
            assert(w.twin(b.around(y, id)));
            w.lemma_twin_descend(
                b.around(y, id),
                seq![e],
                g.max_layer as int,
                level as int + 1,
            );
            let eps = w.descend(seq![e], g.max_layer as int, level as int + 1);
            let top = if level < g.max_layer {
                level as int
            } else {
                g.max_layer as int
            };
            b.lemma_alike_connect(x, y, id, eps, e, top);
        }
    }
}

/// The same over whole builds: inserting the same vectors in the same order,
/// whatever row comes with each, leads to graphs that differ at most in their
/// rows.
pub proof fn attributes_do_not_shape_a_build(
    b: Builder,
    g: Graph,
    h: Graph,
    rows: Seq<Row>,
    others: Seq<Row>,
)
    requires
        g.valid(),
        g.layered(),
        g.alike(h),
        rows.len() == others.len(),
        forall|i: int| 0 <= i < rows.len() ==> (#[trigger] rows[i]).vector == others[i].vector,
    ensures
        b.insert_all(g, rows).alike(b.insert_all(h, others)),
        b.insert_all(g, rows).valid(),
        b.insert_all(g, rows).layered(),
    decreases rows.len(),
{
    if rows.len() > 0 {
        let (head, rest) = (rows.drop_last(), others.drop_last());
        assert forall|i: int| 0 <= i < head.len() implies (#[trigger] head[i]).vector
            == rest[i].vector by {
            assert(head[i] == rows[i]);
        }
        attributes_do_not_shape_a_build(b, g, h, head, rest);
        let (x, y) = (b.insert_all(g, head), b.insert_all(h, rest));
        assert(rows[rows.len() - 1].vector == others.last().vector);
        attributes_do_not_shape_the_graph(
            b,
            x,
            y,
            rows.last().vector,
            rows.last().attrs,
            others.last().attrs,
        );
        b.lemma_inserted(x, rows.last().vector, rows.last().attrs);
    }
}

/// An unfiltered search answers the same in graphs that differ at most in their
/// attribute rows, for every query, every `k` and every budget.
pub proof fn attributes_do_not_sway_searches(w: Walk, u: Walk, k: nat, ef: nat)
    requires
        w.twin(u),
    ensures
        search_result(w, k, ef) == search_result(u, k, ef),
{
    assert(w.plain() == w && u.plain() == u);
    if let Some(e) = w.graph.entry_point {
        assert(e < w.graph.nodes.len());
        let top = w.graph.max_layer as int;
        w.lemma_twin_descend(u, seq![e], top, 1);
        let eps = w.descend(seq![e], top, 1);
        let budget = if ef < k {
            k
        } else {
            ef
        };
        w.lemma_twin_layer(u, eps, budget, 0);
    }
}

/// Parameters as they come make a sound graph, and rebuilding from what the
/// graph recorded of them starts from the same one.
pub(crate) proof fn lemma_empty(params: HnswParams)
    requires
        params.m <= usize::MAX / 2,
    ensures
        Graph::empty(params).valid(),
        Graph::empty(params).layered(),
        Graph::empty(Graph::empty(params).rebuild_params()) == Graph::empty(params),
{
    super::params::clamping_keeps_what_is_in_range(params.gamma);
    super::params::clamping_keeps_what_is_in_range(effective_gamma(params.gamma));
}

/// Without densification a graph has room for twice the base degree on the
/// bottom layer and for the base degree above it.
pub proof fn plain_graphs_have_plain_caps(params: HnswParams)
    requires
        effective_gamma(params.gamma) == F32_ONE,
        2 <= params.m < 0x80_0000,
    ensures
        Graph::empty(params).cap(0) == 2 * params.m,
        Graph::empty(params).cap(1) == params.m,
{
    super::params::unit_gamma_keeps_the_degree((2 * params.m) as nat);
    super::params::unit_gamma_keeps_the_degree(params.m as nat);
}

/// Nodes with the same vectors, rows and tombstones have the same live rows.
proof fn lemma_same_live_rows(x: Seq<Node>, y: Seq<Node>)
    requires
        x.len() == y.len(),
        forall|i: int|
            0 <= i < x.len() ==> {
                &&& (#[trigger] x[i]).vector == y[i].vector
                &&& x[i].attrs == y[i].attrs
                &&& x[i].deleted == y[i].deleted
            },
    ensures
        live_rows(x) == live_rows(y),
    decreases x.len(),
{
    if x.len() > 0 {
        let (a, b) = (x.drop_last(), y.drop_last());
        assert forall|i: int| 0 <= i < a.len() implies {
            &&& (#[trigger] a[i]).vector == b[i].vector
            &&& a[i].attrs == b[i].attrs
            &&& a[i].deleted == b[i].deleted
        } by {
            assert(a[i] == x[i]);
        }
        lemma_same_live_rows(a, b);
        assert(x[x.len() - 1].deleted == y.last().deleted);
    }
}

/// Rebuilding a graph that nothing was ever deleted from changes nothing,
/// whatever was inserted, refused vectors included.
pub proof fn compacting_without_tombstones_changes_nothing(
    b: Builder,
    params: HnswParams,
    rows: Seq<Row>,
)
    requires
        params.m <= usize::MAX / 2,
        rows.len() <= Hnsw::MAX_NODES,
    ensures
        b.compacted(b.insert_all(Graph::empty(params), rows)) == b.insert_all(
            Graph::empty(params),
            rows,
        ),
{
    lemma_empty(params);
    lemma_rebuilt(b, params, rows);
}

proof fn lemma_rebuilt(b: Builder, params: HnswParams, rows: Seq<Row>)
    requires
        params.m <= usize::MAX / 2,
        rows.len() <= Hnsw::MAX_NODES,
    ensures
        ({
            let g = b.insert_all(Graph::empty(params), rows);
            &&& g.valid()
            &&& g.layered()
            &&& g.nodes.len() <= rows.len()
            &&& g.rebuild_params() == Graph::empty(params).rebuild_params()
            &&& b.insert_all(Graph::empty(params), live_rows(g.nodes)) == g
        }),
    decreases rows.len(),
{
    let blank = Graph::empty(params);
    lemma_empty(params);
    if rows.len() > 0 {
        let head = rows.drop_last();
        let row = rows.last();
        lemma_rebuilt(b, params, head);
        let before = b.insert_all(blank, head);
        let after = b.insert_all(blank, rows);
        b.lemma_inserted(before, row.vector, row.attrs);
        insert_adds_one_node(b, before, row.vector, row.attrs);
        if b.insert_result(before, row.vector) is Ok {
            let old = after.nodes.drop_last();
            assert forall|i: int| 0 <= i < old.len() implies {
                &&& (#[trigger] old[i]).vector == before.nodes[i].vector
                &&& old[i].attrs == before.nodes[i].attrs
                &&& old[i].deleted == before.nodes[i].deleted
            } by {
                assert(old[i] == after.nodes[i]);
            }
            lemma_same_live_rows(old, before.nodes);
            let all = live_rows(after.nodes);
            assert(all =~= live_rows(before.nodes).push(row));
            assert(all.drop_last() =~= live_rows(before.nodes));
        }
    }
}

/// Deleting a node leaves everything but its own flag as it was, so every other
/// node is returned or not exactly as before.
pub proof fn delete_touches_one_flag(g: Graph, id: int)
    requires
        0 <= id < g.nodes.len(),
    ensures
        g.with_deleted(id).nodes[id].deleted,
        g.with_deleted(id).deleted_count() == g.deleted_count() + (if g.nodes[id].deleted {
            0nat
        } else {
            1
        }),
        forall|k: int|
            0 <= k < g.nodes.len() && k != id ==> #[trigger] g.with_deleted(id).nodes[k]
                == g.nodes[k],
        forall|k: int, layer: int| #[trigger]
            g.with_deleted(id).neighbors(k, layer) == g.neighbors(k, layer),
{
    lemma_deleted_in_update(g.nodes, id);
}

proof fn lemma_deleted_in_update(nodes: Seq<Node>, id: int)
    requires
        0 <= id < nodes.len(),
    ensures
        deleted_in(nodes.update(id, Node { deleted: true, ..nodes[id] })) == deleted_in(nodes) + (
        if nodes[id].deleted {
            0nat
        } else {
            1
        }),
    decreases nodes.len(),
{
    let after = nodes.update(id, Node { deleted: true, ..nodes[id] });
    if id == nodes.len() - 1 {
        assert(after.drop_last() =~= nodes.drop_last());
    } else {
        let head = nodes.drop_last();
        lemma_deleted_in_update(head, id);
        assert(after.drop_last() =~= head.update(id, Node { deleted: true, ..head[id] }));
    }
}

/// A live node's row stands among the live rows after those of the live nodes
/// before it.
proof fn lemma_live_row_at(nodes: Seq<Node>, id: int)
    requires
        0 <= id < nodes.len(),
        !nodes[id].deleted,
    ensures
        ({
            let at = id - deleted_in(nodes.take(id));
            &&& 0 <= at < live_rows(nodes).len()
            &&& live_rows(nodes)[at].vector == nodes[id].vector
            &&& live_rows(nodes)[at].attrs == nodes[id].attrs
        }),
        live_rows(nodes).len() + deleted_in(nodes) == nodes.len(),
    decreases nodes.len(),
{
    let head = nodes.drop_last();
    lemma_live_count(nodes);
    lemma_live_count(head);
    if id == nodes.len() - 1 {
        assert(nodes.take(id) =~= head);
    } else {
        lemma_live_row_at(head, id);
        assert(head.take(id) =~= nodes.take(id));
    }
}

proof fn lemma_live_count(nodes: Seq<Node>)
    ensures
        live_rows(nodes).len() + deleted_in(nodes) == nodes.len(),
    decreases nodes.len(),
{
    if nodes.len() > 0 {
        lemma_live_count(nodes.drop_last());
    }
}

/// A rebuild moves every live node down by the number of tombstones before it,
/// with its vector and its attribute row, and keeps the metric, the parameters
/// and the seed. It has as many nodes as were live.
pub proof fn compaction_moves_live_nodes_down(b: Builder, g: Graph, id: int)
    requires
        g.valid(),
        0 <= id < g.nodes.len(),
        !g.nodes[id].deleted,
    ensures
        ({
            let h = b.compacted(g);
            let to = id - deleted_in(g.nodes.take(id));
            &&& h.nodes.len() == g.nodes.len() - deleted_in(g.nodes)
            &&& 0 <= to < h.nodes.len()
            &&& h.nodes[to].vector == g.nodes[id].vector
            &&& h.nodes[to].attrs == g.nodes[id].attrs
            &&& !h.nodes[to].deleted
            &&& h.dim == g.dim
            &&& h.metric == g.metric
            &&& h.m == g.m
            &&& h.gamma == g.gamma
            &&& h.ef_construction == g.ef_construction
            &&& h.seed == g.seed
        }),
{
    let rows = live_rows(g.nodes);
    let blank = Graph::empty(g.rebuild_params());
    super::params::clamping_keeps_what_is_in_range(g.gamma);
    assert forall|i: int| 0 <= i < g.nodes.len() implies (#[trigger] g.nodes[i]).vector.len()
        == g.dim by {
        assert(g.node_ok(i));
    }
    lemma_live_rows(g.nodes, g.dim);
    lemma_live_row_at(g.nodes, id);
    b.lemma_insert_all(blank, rows, g.dim);
    lemma_insert_all_keeps(b, blank, rows);
    let at = id - deleted_in(g.nodes.take(id));
    assert(b.insert_all(blank, rows).nodes[at].vector == rows[at].vector);
}

/// Inserting rows keeps the metric, the parameters and the seed.
proof fn lemma_insert_all_keeps(b: Builder, g: Graph, rows: Seq<Row>)
    requires
        g.valid(),
    ensures
        b.insert_all(g, rows).valid(),
        b.insert_all(g, rows).metric == g.metric,
        b.insert_all(g, rows).m == g.m,
        b.insert_all(g, rows).gamma == g.gamma,
        b.insert_all(g, rows).ef_construction == g.ef_construction,
        b.insert_all(g, rows).seed == g.seed,
    decreases rows.len(),
{
    if rows.len() > 0 {
        lemma_insert_all_keeps(b, g, rows.drop_last());
        let before = b.insert_all(g, rows.drop_last());
        b.lemma_inserted(before, rows.last().vector, rows.last().attrs);
    }
}

/// Tombstones are counted one by one: there are as many as there are tombstoned
/// nodes.
pub proof fn tombstones_are_counted(nodes: Seq<Node>)
    ensures
        Set::new(|i: int| 0 <= i < nodes.len() && nodes[i].deleted).finite(),
        deleted_in(nodes) == Set::new(|i: int| 0 <= i < nodes.len() && nodes[i].deleted).len(),
    decreases nodes.len(),
{
    let all = Set::new(|i: int| 0 <= i < nodes.len() && nodes[i].deleted);
    if nodes.len() == 0 {
        assert(all =~= Set::<int>::empty());
    } else {
        let head = nodes.drop_last();
        let last = nodes.len() - 1;
        tombstones_are_counted(head);
        let some = Set::new(|i: int| 0 <= i < head.len() && head[i].deleted);
        if nodes.last().deleted {
            assert(all =~= some.insert(last));
        } else {
            assert(all =~= some);
        }
    }
}

/// An index starts as its parameters say: a degree of at least 2, a density
/// between 1 and 1024, a candidate pool of at least the degree, or of the scaled
/// bottom degree where the density asks for more links, and a seed other than
/// zero.
pub proof fn new_indexes_follow_their_parameters(params: HnswParams)
    ensures
        ({
            let g = Graph::empty(params);
            &&& g.nodes.len() == 0 && g.dim == 0 && g.max_layer == 0 && g.entry_point is None
            &&& g.metric == params.metric
            &&& g.m == (if params.m < 2 {
                2
            } else {
                params.m as int
            })
            &&& 0x3f80_0000 <= g.gamma <= 0x4480_0000
            &&& 0x3f80_0000 <= params.gamma <= 0x4480_0000 ==> g.gamma == params.gamma
            &&& g.ef_construction >= params.ef_construction
            &&& g.gamma == 0x3f80_0000 ==> g.ef_construction == (if params.ef_construction < g.m {
                g.m as int
            } else {
                params.ef_construction as int
            })
            &&& g.gamma > 0x3f80_0000 ==> g.ef_construction == (if params.ef_construction < g.cap(
                0,
            ) {
                g.cap(0) as int
            } else {
                params.ef_construction as int
            })
            &&& g.seed == (if params.seed == 0 {
                0x9E37_79B9_7F4A_7C15
            } else {
                params.seed
            })
            &&& g.rng == g.seed
        }),
{
    super::params::densities_in_effect(params.gamma);
}

/// Links stay within their layers when every node that is named on a layer is on
/// it, and not otherwise.
pub proof fn layers_are_kept_apart(g: Graph)
    ensures
        g.layered() <==> forall|id: int, layer: int, i: int|
            0 <= id < g.nodes.len() && 0 <= layer < g.nodes[id].layers.len() && 0 <= i
                < g.nodes[id].layers[layer].len() ==> {
                let y = #[trigger] g.nodes[id].layers[layer][i];
                y < g.nodes.len() && layer < g.nodes[y as int].layers.len()
            },
{
    if forall|id: int, layer: int, i: int|
        0 <= id < g.nodes.len() && 0 <= layer < g.nodes[id].layers.len() && 0 <= i
            < g.nodes[id].layers[layer].len() ==> {
            let y = #[trigger] g.nodes[id].layers[layer][i];
            y < g.nodes.len() && layer < g.nodes[y as int].layers.len()
        } {
        assert(g.layered());
    }
}

/// A node has room for twice the degree on the bottom layer and for the degree on
/// every layer above, scaled by the density and rounded.
pub proof fn caps_scale_with_the_density(g: Graph, layer: int, base: nat, unit: nat)
    requires
        g.m <= 0x2_0000,
        0x3f80_0000 <= g.gamma <= 0x4480_0000,
        layer >= 0,
        base == (if layer == 0 {
            g.m + g.m
        } else {
            g.m
        }),
        unit == pow2((150 - g.gamma / 0x80_0000) as nat),
    ensures
        ({
            let exact = base * (0x80_0000 + g.gamma % 0x80_0000);
            let off = g.cap(layer) * unit - exact;
            let most = unit * 0x80_0000 + exact;
            -most <= off * 0x100_0000 <= most
        }),
        g.gamma == 0x3f80_0000 ==> g.cap(layer) == base,
{
    let significand = (0x80_0000 + g.gamma % 0x80_0000) as nat;
    super::params::caps_are_rounded_products(base, g.gamma, significand, unit);
    super::params::unit_gamma_keeps_the_degree(base);
}

} // verus!
