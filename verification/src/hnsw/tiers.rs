//! The upper layers are an index to the bottom one.
//!
//! A search does with the layers above the bottom what it would do with an index
//! made of them: it looks there for one node, and starts from it below.

use super::beam::BeamState;
use super::graph::{Graph, Hnsw};
use super::params::HnswError;
use super::search::{pairs, search_result, Walk};
use crate::distance::Kernel;
use vstd::prelude::*;

verus! {

impl Graph {
    /// The two graphs hold the same vectors, live and tombstoned alike, under the
    /// same metric; and layer `l` of `other` is layer `l + shift` of this one.
    pub open spec fn shifts_to(self, other: Graph, shift: int) -> bool {
        &&& self.metric == other.metric
        &&& self.dim == other.dim
        &&& self.nodes.len() == other.nodes.len()
        &&& forall|id: int|
            0 <= id < self.nodes.len() ==> {
                &&& (#[trigger] self.nodes[id]).vector == other.nodes[id].vector
                &&& self.nodes[id].deleted == other.nodes[id].deleted
            }
        &&& forall|id: int, l: int|
            0 <= l <= other.max_layer ==> #[trigger] other.neighbors(id, l) == self.neighbors(
                id,
                l + shift,
            )
    }
}

impl Walk {
    /// Unfiltered searches for the same thing, the one a few layers above the
    /// other.
    spec fn shadows(self, other: Walk, shift: int) -> bool {
        &&& self.graph.shifts_to(other.graph, shift)
        &&& self.dist == other.dist
        &&& self.query == other.query
        &&& self.filter is None
        &&& other.filter is None
        &&& self.graph.valid()
        &&& other.graph.valid()
    }

    proof fn lemma_shadow_visit_all(self, other: Walk, shift: int, b: BeamState, ids: Seq<u32>)
        requires
            self.shadows(other, shift),
            forall|i: int| 0 <= i < ids.len() ==> (#[trigger] ids[i]) < self.graph.nodes.len(),
        ensures
            self.visit_all(b, ids) == other.visit_all(b, ids),
        decreases ids.len(),
    {
        if ids.len() > 0 {
            let head = ids.drop_last();
            assert forall|i: int| 0 <= i < head.len() implies (#[trigger] head[i])
                < self.graph.nodes.len() by {
                assert(head[i] == ids[i]);
            }
            self.lemma_shadow_visit_all(other, shift, b, head);
            let id = ids.last() as int;
            assert(ids[ids.len() - 1] < self.graph.nodes.len());
            assert(self.graph.nodes[id].vector == other.graph.nodes[id].vector);
        }
    }

    proof fn lemma_shadow_seed_all(self, other: Walk, shift: int, b: BeamState, ids: Seq<usize>)
        requires
            self.shadows(other, shift),
            forall|i: int| 0 <= i < ids.len() ==> (#[trigger] ids[i]) < self.graph.nodes.len(),
        ensures
            self.seed_all(b, ids) == other.seed_all(b, ids),
        decreases ids.len(),
    {
        if ids.len() > 0 {
            let head = ids.drop_last();
            assert forall|i: int| 0 <= i < head.len() implies (#[trigger] head[i])
                < self.graph.nodes.len() by {
                assert(head[i] == ids[i]);
            }
            self.lemma_shadow_seed_all(other, shift, b, head);
            let id = ids.last() as int;
            assert(ids[ids.len() - 1] < self.graph.nodes.len());
            assert(self.graph.nodes[id].vector == other.graph.nodes[id].vector);
        }
    }

    proof fn lemma_shadow_drain(
        self,
        other: Walk,
        shift: int,
        b: BeamState,
        layer: int,
        pops: nat,
    )
        requires
            self.shadows(other, shift),
            0 <= layer <= other.graph.max_layer,
        ensures
            self.drain(b, layer + shift, pops) == other.drain(b, layer, pops),
        decreases pops,
    {
        if !(pops == 0 || b.frontier.len() == 0 || self.finished(b)) {
            let id = b.frontier[0].id as int;
            assert(other.graph.neighbors(id, layer) == self.graph.neighbors(id, layer + shift));
            self.graph.lemma_links_in_range(id, layer + shift);
            self.lemma_shadow_visit_all(
                other,
                shift,
                b.pop(),
                self.graph.neighbors(id, layer + shift),
            );
            self.lemma_shadow_drain(
                other,
                shift,
                self.expand(b.pop(), id, layer + shift),
                layer,
                (pops - 1) as nat,
            );
        }
    }

    proof fn lemma_shadow_layer(
        self,
        other: Walk,
        shift: int,
        eps: Seq<usize>,
        ef: nat,
        layer: int,
    )
        requires
            self.shadows(other, shift),
            0 <= layer <= other.graph.max_layer,
            forall|i: int| 0 <= i < eps.len() ==> (#[trigger] eps[i]) < self.graph.nodes.len(),
        ensures
            self.layer(eps, ef, layer + shift) == other.layer(eps, ef, layer),
    {
        self.lemma_shadow_seed_all(other, shift, BeamState::new(ef, 0), eps);
        self.lemma_shadow_drain(
            other,
            shift,
            self.seed_all(BeamState::new(ef, 0), eps),
            layer,
            self.graph.nodes.len(),
        );
    }

    proof fn lemma_shadow_descend(
        self,
        other: Walk,
        shift: int,
        eps: Seq<usize>,
        top: int,
        bottom: int,
    )
        requires
            self.shadows(other, shift),
            0 <= bottom,
            top <= other.graph.max_layer,
            eps.len() == 1,
            eps[0] < self.graph.nodes.len(),
        ensures
            self.descend(eps, top + shift, bottom + shift) == other.descend(eps, top, bottom),
        decreases top - bottom + 1,
    {
        if top >= bottom {
            self.lemma_shadow_layer(other, shift, eps, 1, top);
            let found = self.layer(eps, 1, top + shift);
            self.lemma_layer_found(eps, 1, top + shift, |x: int| true);
            let next = if found.len() > 0 {
                seq![found[0].id]
            } else {
                eps
            };
            self.lemma_shadow_descend(other, shift, next, top - 1, bottom);
        }
    }

    /// The last step of a descent.
    proof fn lemma_descend_last(self, eps: Seq<usize>, top: int, bottom: int)
        requires
            top >= bottom,
        ensures
            ({
                let before = self.descend(eps, top, bottom + 1);
                let found = self.layer(before, 1, bottom);
                self.descend(eps, top, bottom) == (if found.len() > 0 {
                    seq![found[0].id]
                } else {
                    before
                })
            }),
        decreases top - bottom,
    {
        let found = self.layer(eps, 1, top);
        let next = if found.len() > 0 {
            seq![found[0].id]
        } else {
            eps
        };
        if top > bottom {
            self.lemma_descend_last(next, top - 1, bottom);
            assert(self.descend(eps, top, bottom) == self.descend(next, top - 1, bottom));
            assert(self.descend(eps, top, bottom + 1) == self.descend(next, top - 1, bottom + 1));
        } else {
            assert(self.descend(eps, top, bottom + 1) == eps);
            assert(self.descend(next, top - 1, bottom) == next);
        }
    }
}

/// A search of an index with several layers finds its way in through the upper
/// ones: with an index made of the layers above the bottom, and one made of the
/// bottom layer alone that is entered at the one node which a search of the first
/// for a single node, with a budget of one, answers with, a search answers the same
/// as a search of the second.
pub proof fn upper_layers_lead_the_way<K: Fn(Kernel, &[u32], &[u32]) -> u32>(
    h: &Hnsw,
    upper: &Hnsw,
    bottom: &Hnsw,
    kernel: K,
    query: Seq<u32>,
    nearest: (u32, usize),
    k: nat,
    ef: nat,
)
    requires
        h.wf(),
        upper.wf(),
        bottom.wf(),
        query.len() == h@.dim,
        h@.max_layer >= 1,
        h@.shifts_to(upper@, 1),
        upper@.max_layer + 1 == h@.max_layer,
        upper@.entry_point == h@.entry_point,
        h@.shifts_to(bottom@, 0),
        bottom@.max_layer == 0,
        bottom@.entry_point == Some(nearest.1),
        search_result(upper.walk(kernel, query, None), 1, 1) == Ok::<
            Seq<(u32, usize)>,
            HnswError,
        >(seq![nearest]),
    ensures
        search_result(h.walk(kernel, query, None), k, ef) == search_result(
            bottom.walk(kernel, query, None),
            k,
            ef,
        ),
{
    let w = h.walk(kernel, query, None);
    let u = upper.walk(kernel, query, None);
    let d = bottom.walk(kernel, query, None);
    assert(w.dist == u.dist && w.dist == d.dist);
    assert(w.shadows(u, 1));
    assert(w.shadows(d, 0));
    assert(w.plain() == w && u.plain() == u && d.plain() == d);
    let e = h@.entry_point->0;
    assert(h@.entry_point is Some);
    let top = h@.max_layer as int;
    assert(u.nearest(1, 1).len() <= u.found(1).len());
    assert(pairs(u.nearest(1, 1)) == seq![nearest]);
    assert(pairs(u.nearest(1, 1)).len() == 1);
    let up = u.descend(seq![e], top - 1, 1);
    u.lemma_descend_in_range(seq![e], top - 1, 1);
    w.lemma_shadow_descend(u, 1, seq![e], top - 1, 1);
    assert(w.descend(seq![e], top, 2) == up);
    w.lemma_shadow_layer(u, 1, up, 1, 0);
    let found = u.layer(up, 1, 0);
    assert(u.found(1) == found);
    assert(pairs(u.nearest(1, 1))[0] == nearest);
    assert(u.nearest(1, 1)[0].id == nearest.1);
    assert(found.len() > 0 && found[0].id == nearest.1);
    w.lemma_descend_last(seq![e], top, 1);
    assert(w.descend(seq![e], top, 1) == seq![nearest.1]);
    if k > 0 {
        let budget = if ef < k {
            k
        } else {
            ef
        };
        assert(d.descend(seq![nearest.1], 0, 1) == seq![nearest.1]);
        assert(nearest.1 < h@.nodes.len());
        w.lemma_shadow_layer(d, 0, seq![nearest.1], budget, 0);
        assert(w.found(budget) == d.found(budget));
    }
}

} // verus!
