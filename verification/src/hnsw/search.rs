//! Beam search over the graph, plain and predicate-aware.
//!
//! A search walks one layer at a time: it keeps a frontier of nodes to expand
//! and the best answers found, and stops when the nearest node left is farther
//! than the farthest answer. Under a predicate, a node that fails it is never an
//! answer but may still be walked over, so a selective filter cannot strand the
//! matching nodes behind non-matching ones. How far such a walk goes is in
//! [`super::filtered`].

use super::beam::{ascending, sort, sorted, Beam, BeamState, Cand};
use super::filtered::{allowance, times, DETOURS_PER_EF, EXPANSIONS_PER_EF};
use super::graph::{Graph, Hnsw};
use super::params::HnswError;
use crate::distance::{kernel_ok, Kernel};
use crate::filter::Predicate;
use crate::floats::{f32_less, f32_lt};
use crate::vector::metric_distance;
use crate::vector::Metric;
use vstd::prelude::*;

verus! {

/// The distance function a metric and a kernel make.
pub open spec fn distances<K: Fn(Kernel, &[u32], &[u32]) -> u32>(
    kernel: K,
    metric: Metric,
) -> spec_fn(Seq<u32>, Seq<u32>) -> u32 {
    |a: Seq<u32>, b: Seq<u32>| metric_distance(kernel, metric, a, b)
}

/// One search: a graph, distances, what is looked for, and what may be returned.
pub struct Walk {
    pub graph: Graph,
    pub dist: spec_fn(Seq<u32>, Seq<u32>) -> u32,
    pub query: Seq<u32>,
    pub filter: Option<Predicate>,
}

/// The predicate behind an optional reference.
pub open spec fn filter_of(predicate: Option<&Predicate>) -> Option<Predicate> {
    match predicate {
        Some(p) => Some(*p),
        None => None,
    }
}

impl Walk {
    /// Whether the predicate asks for the predicate-aware walk. No predicate and
    /// the match-all predicate do not.
    pub open spec fn filtered(self) -> bool {
        self.filter is Some && self.filter != Some(Predicate::All)
    }

    /// Node `id` satisfies the predicate, if there is one.
    pub open spec fn matches(self, id: int) -> bool {
        match self.filter {
            None => true,
            Some(p) => p.holds(self.graph.attrs(id)),
        }
    }

    /// Node `id` may be returned: live, and satisfying the predicate.
    pub open spec fn admissible(self, id: int) -> bool {
        !self.graph.nodes[id].deleted && self.matches(id)
    }

    /// Node `id` scored against the query.
    pub open spec fn score(self, id: int) -> Cand {
        Cand { dist: (self.dist)(self.query, self.graph.nodes[id].vector), id: id as usize }
    }

    /// The state after considering `id`: a node seen before changes nothing, and
    /// one too far to improve on a full answer set is only marked as seen.
    pub open spec fn visit(self, b: BeamState, id: int) -> BeamState {
        if self.joins(b, id) {
            b.see(id as usize).push(self.score(id), self.admissible(id))
        } else {
            b.see(id as usize)
        }
    }

    /// Considering `id` puts it on the frontier.
    pub open spec fn joins(self, b: BeamState, id: int) -> bool {
        &&& !b.visited.contains(id as usize)
        &&& b.results.len() < b.ef || f32_lt(self.score(id).dist, b.farthest())
    }

    /// The state after considering nodes one after the other.
    pub open spec fn visit_all(self, b: BeamState, ids: Seq<u32>) -> BeamState
        decreases ids.len(),
    {
        if ids.len() == 0 {
            b
        } else {
            self.visit(self.visit_all(b, ids.drop_last()), ids.last() as int)
        }
    }

    /// The nodes of a list that satisfy the predicate, in order.
    pub open spec fn matching(self, ids: Seq<u32>) -> Seq<u32>
        decreases ids.len(),
    {
        if ids.len() == 0 {
            ids
        } else if self.matches(ids.last() as int) {
            self.matching(ids.drop_last()).push(ids.last())
        } else {
            self.matching(ids.drop_last())
        }
    }

    /// The nodes of a list that do not satisfy the predicate, in order.
    pub open spec fn failing(self, ids: Seq<u32>) -> Seq<u32>
        decreases ids.len(),
    {
        if ids.len() == 0 {
            ids
        } else if self.matches(ids.last() as int) {
            self.failing(ids.drop_last())
        } else {
            self.failing(ids.drop_last()).push(ids.last())
        }
    }

    /// The matching neighbors of a run of bridge nodes, bridge by bridge.
    pub open spec fn across(self, bridges: Seq<u32>, layer: int) -> Seq<u32>
        decreases bridges.len(),
    {
        if bridges.len() == 0 {
            Seq::empty()
        } else {
            self.across(bridges.drop_last(), layer) + self.matching(
                self.graph.neighbors(bridges.last() as int, layer),
            )
        }
    }

    /// The state after routing on through a list of nodes, whether they match or
    /// not, while the detour allowance lasts. A node that joins the frontier
    /// costs one unit.
    pub open spec fn detour(self, b: BeamState, ids: Seq<u32>) -> BeamState
        decreases ids.len(),
    {
        if ids.len() == 0 {
            b
        } else {
            let c = self.detour(b, ids.drop_last());
            let id = ids.last() as int;
            if c.detours == 0 {
                c
            } else if self.joins(c, id) {
                BeamState { detours: (c.detours - 1) as nat, ..self.visit(c, id) }
            } else {
                self.visit(c, id)
            }
        }
    }

    /// The first `count` of a list, or all of it.
    pub open spec fn first(ids: Seq<u32>, count: int) -> Seq<u32> {
        if count < 0 {
            Seq::empty()
        } else if count < ids.len() {
            ids.take(count)
        } else {
            ids
        }
    }

    /// Matching nodes one expansion reaches across bridges: as many as are
    /// missing to `m` matching neighbors, over the first `m` failing neighbors.
    pub open spec fn bridged(self, near: Seq<u32>, layer: int) -> Seq<u32> {
        let m = self.graph.m as int;
        Self::first(
            self.across(Self::first(self.failing(near), m), layer),
            m - self.matching(near).len(),
        )
    }

    /// Nothing matches within two hops of node `id`: it has no matching neighbor,
    /// and none across its failing ones.
    pub open spec fn stranded(self, id: int, layer: int) -> bool {
        let near = self.graph.neighbors(id, layer);
        self.matching(near).len() == 0 && self.bridged(near, layer).len() == 0
    }

    /// The state after expanding node `id` on a layer.
    ///
    /// Unfiltered, every neighbor is considered. Under a predicate the matching
    /// neighbors are; when they number fewer than `m`, the walk hops over
    /// failing neighbors to theirs; and when nothing matches within those two
    /// hops, it routes on through the failing neighbors themselves.
    pub open spec fn expand(self, b: BeamState, id: int, layer: int) -> BeamState {
        let near = self.graph.neighbors(id, layer);
        if !self.filtered() {
            self.visit_all(b, near)
        } else {
            let direct = self.matching(near);
            let hops = self.bridged(near, layer);
            let c = self.visit_all(self.visit_all(b, direct), hops);
            if self.stranded(id, layer) {
                self.detour(c, near)
            } else {
                c
            }
        }
    }

    /// The state after seeding with an entry point. A seed routes even when it
    /// may not be returned.
    pub open spec fn seed(self, b: BeamState, id: int) -> BeamState {
        if b.visited.contains(id as usize) {
            b
        } else {
            b.see(id as usize).push(self.score(id), self.admissible(id))
        }
    }

    /// The state after seeding with entry points one after the other.
    pub open spec fn seed_all(self, b: BeamState, ids: Seq<usize>) -> BeamState
        decreases ids.len(),
    {
        if ids.len() == 0 {
            b
        } else {
            self.seed(self.seed_all(b, ids.drop_last()), ids.last() as int)
        }
    }

    /// The nearest node left cannot improve the answers. A filtered search only
    /// stops once its budget is filled.
    pub open spec fn finished(self, b: BeamState) -> bool {
        f32_lt(b.farthest(), b.frontier[0].dist) && (!self.filtered() || b.results.len() >= b.ef)
    }

    /// The state after expanding nearest nodes until the frontier is empty or
    /// cannot improve the answers, at most `pops` times.
    pub open spec fn drain(self, b: BeamState, layer: int, pops: nat) -> BeamState
        decreases pops,
    {
        if pops == 0 || b.frontier.len() == 0 || self.finished(b) {
            b
        } else {
            self.drain(
                self.expand(b.pop(), b.frontier[0].id as int, layer),
                layer,
                (pops - 1) as nat,
            )
        }
    }

    /// The up to `ef` nearest nodes a beam search of one layer finds, nearest
    /// first. A node is expanded at most once, so `n` expansions exhaust it.
    pub open spec fn layer(self, entry: Seq<usize>, ef: nat, layer: int) -> Seq<Cand> {
        self.drain(
            self.seed_all(BeamState::new(ef, 0), entry),
            layer,
            self.graph.nodes.len(),
        ).results
    }

    /// The same search without a predicate.
    pub open spec fn plain(self) -> Walk {
        Walk { filter: None, ..self }
    }

    /// Where a greedy descent from layer `top` down to layer `bottom` ends.
    pub open spec fn descend(self, entry: Seq<usize>, top: int, bottom: int) -> Seq<usize>
        decreases top - bottom + 1,
    {
        if top < bottom {
            entry
        } else {
            let found = self.layer(entry, 1, top);
            self.descend(
                if found.len() > 0 {
                    seq![found[0].id]
                } else {
                    entry
                },
                top - 1,
                bottom,
            )
        }
    }

    /// What a search with budget `ef` finds, nearest first: descend through the
    /// upper layers, then search layer 0.
    pub open spec fn found(self, ef: nat) -> Seq<Cand>
        recommends
            self.graph.entry_point is Some,
    {
        let top = self.graph.max_layer as int;
        if self.filtered() {
            let detours = allowance(ef, DETOURS_PER_EF as nat);
            let f = self.foothold(
                self.graph.entry_point->0,
                Seq::empty(),
                top,
                detours,
                allowance(ef, EXPANSIONS_PER_EF as nat),
            );
            self.hunt(f.entry(), ef, 0, detours, f.left).beam.results
        } else {
            let entry = self.plain().descend(seq![self.graph.entry_point->0], top, 1);
            self.plain().layer(entry, ef, 0)
        }
    }

    /// The `k` nearest nodes found with budget `ef`, raised to at least `k`.
    pub open spec fn nearest(self, k: nat, ef: nat) -> Seq<Cand>
        recommends
            self.graph.entry_point is Some,
    {
        let found = self.found(
            if ef < k {
                k
            } else {
                ef
            },
        );
        if k < found.len() {
            found.take(k as int)
        } else {
            found
        }
    }
}

/// Distance-id pairs of candidates.
pub open spec fn pairs(found: Seq<Cand>) -> Seq<(u32, usize)> {
    Seq::new(found.len(), |i: int| (found[i].dist, found[i].id))
}

/// What a search answers.
pub open spec fn search_result(w: Walk, k: nat, ef: nat) -> Result<Seq<(u32, usize)>, HnswError> {
    if w.graph.entry_point is None || k == 0 {
        Ok(Seq::empty())
    } else if w.query.len() != w.graph.dim {
        Err(
            HnswError::DimensionMismatch {
                expected: w.graph.dim as usize,
                got: w.query.len() as usize,
            },
        )
    } else {
        Ok(pairs(w.nearest(k, ef)))
    }
}

/// A result over vectors, as one over sequences.
pub open spec fn answer(r: Result<Vec<(u32, usize)>, HnswError>) -> Result<
    Seq<(u32, usize)>,
    HnswError,
> {
    match r {
        Ok(v) => Ok(v@),
        Err(e) => Err(e),
    }
}

impl Hnsw {
    /// The search of this graph for `query`.
    pub open spec fn walk<K: Fn(Kernel, &[u32], &[u32]) -> u32>(
        &self,
        kernel: K,
        query: Seq<u32>,
        predicate: Option<&Predicate>,
    ) -> Walk {
        Walk {
            graph: self@,
            dist: distances(kernel, self@.metric),
            query,
            filter: filter_of(predicate),
        }
    }

    /// Whether `predicate` requires the predicate-aware walk.
    fn is_filtered(predicate: Option<&Predicate>) -> (r: bool)
        ensures
            r == (filter_of(predicate) is Some && filter_of(predicate) != Some(Predicate::All)),
    {
        match predicate {
            None => false,
            Some(Predicate::All) => false,
            Some(_) => true,
        }
    }

    /// Whether node `id` satisfies `predicate`; true without one.
    fn node_matches(&self, id: usize, predicate: Option<&Predicate>) -> (r: bool)
        requires
            self.stored(),
        ensures
            forall|w: Walk| w.graph == self@ && w.filter == filter_of(predicate) ==> r
                == #[trigger] w.matches(id as int),
    {
        match predicate {
            None => true,
            Some(p) => p.matches(self.attrs(id)),
        }
    }

    /// Whether `id` may be returned: live, and satisfying the predicate.
    fn admissible(&self, id: usize, predicate: Option<&Predicate>) -> (r: bool)
        requires
            self.stored(),
            id < self@.nodes.len(),
        ensures
            forall|w: Walk| w.graph == self@ && w.filter == filter_of(predicate) ==> r
                == #[trigger] w.admissible(id as int),
    {
        let matches = self.node_matches(id, predicate);
        assert forall|w: Walk| w.graph == self@ && w.filter == filter_of(predicate) implies (
        !self@.nodes[id as int].deleted && matches) == #[trigger] w.admissible(id as int) by {
            assert(matches == w.matches(id as int));
        }
        !self.is_deleted(id) && matches
    }

    /// Distance from `query` to node `id`.
    pub(crate) fn distance_to<K: Fn(Kernel, &[u32], &[u32]) -> u32>(
        &self,
        kernel: &K,
        query: &[u32],
        id: usize,
    ) -> (r: Result<u32, HnswError>)
        requires
            self.stored(),
            kernel_ok(*kernel),
            id < self@.nodes.len(),
            query@.len() == self@.nodes[id as int].vector.len(),
        ensures
            r == Ok::<u32, HnswError>(
                distances(*kernel, self@.metric)(query@, self@.nodes[id as int].vector),
            ),
    {
        match self.metric().distance(kernel, query, self.vector(id)) {
            Ok(d) => Ok(d),
            Err(e) => Err(HnswError::from(e)),
        }
    }

    /// Score `id` and fold it into `beam`, unless it was already considered or is
    /// too far to improve on the answers held. Reports whether it joined the
    /// frontier.
    fn visit<K: Fn(Kernel, &[u32], &[u32]) -> u32>(
        &self,
        kernel: &K,
        query: &[u32],
        id: usize,
        predicate: Option<&Predicate>,
        beam: &mut Beam,
    ) -> (r: Result<bool, HnswError>)
        requires
            self.wf(),
            kernel_ok(*kernel),
            id < self@.nodes.len(),
            query@.len() == self@.dim,
            old(beam)@.ok(self@.nodes.len()),
        ensures
            r == Ok::<bool, HnswError>(
                self.walk(*kernel, query@, predicate).joins(old(beam)@, id as int),
            ),
            final(beam)@ == self.walk(*kernel, query@, predicate).visit(old(beam)@, id as int),
            final(beam)@.ok(self@.nodes.len()),
            final(beam)@.slack(self@.nodes.len()) <= old(beam)@.slack(self@.nodes.len()),
    {
        let ghost w = self.walk(*kernel, query@, predicate);
        let ghost n = self@.nodes.len();
        let ghost before = beam@;
        if !beam.see(id) {
            assert(before.see(id) =~= before);
            return Ok(false);
        }
        proof {
            before.lemma_see(id, n);
            assert(self@.node_ok(id as int));
        }
        let d: u32 = self.distance_to(kernel, query, id)?;
        if beam.results.len() < beam.ef || f32_less(d, beam.farthest()) {
            let admissible = self.admissible(id, predicate);
            proof {
                assert(admissible == w.admissible(id as int));
                before.see(id).lemma_push(Cand { dist: d, id }, admissible, n);
            }
            beam.push(Cand { dist: d, id }, admissible);
            return Ok(true);
        }
        Ok(false)
    }

    /// Consider the neighbors that satisfy the predicate, and collect up to `m`
    /// of those that do not. Reports how many satisfied it.
    fn visit_direct<K: Fn(Kernel, &[u32], &[u32]) -> u32>(
        &self,
        kernel: &K,
        query: &[u32],
        near: &[u32],
        predicate: Option<&Predicate>,
        beam: &mut Beam,
        bridges: &mut Vec<u32>,
    ) -> (r: Result<usize, HnswError>)
        requires
            self.wf(),
            kernel_ok(*kernel),
            query@.len() == self@.dim,
            old(beam)@.ok(self@.nodes.len()),
            forall|i: int| 0 <= i < near@.len() ==> (#[trigger] near@[i]) < self@.nodes.len(),
        ensures
            ({
                let w = self.walk(*kernel, query@, predicate);
                &&& r == Ok::<usize, HnswError>(w.matching(near@).len() as usize)
                &&& w.matching(near@).len() <= near@.len()
                &&& final(beam)@ == w.visit_all(old(beam)@, w.matching(near@))
                &&& final(bridges)@ == Walk::first(w.failing(near@), self@.m as int)
            }),
            final(beam)@.ok(self@.nodes.len()),
            final(beam)@.slack(self@.nodes.len()) <= old(beam)@.slack(self@.nodes.len()),
    {
        let ghost w = self.walk(*kernel, query@, predicate);
        let ghost n = self@.nodes.len();
        let ghost before = beam@;
        let max_bridges: usize = self.m();
        bridges.clear();
        let mut matching: usize = 0;
        let mut i: usize = 0;
        proof {
            assert(near@.take(0) =~= Seq::<u32>::empty());
            assert(Walk::first(w.failing(near@.take(0)), w.graph.m as int) =~= Seq::<u32>::empty());
        }
        while i < near.len()
            invariant
                self.wf(),
                kernel_ok(*kernel),
                query@.len() == self@.dim,
                w == self.walk(*kernel, query@, predicate),
                n == self@.nodes.len(),
                max_bridges == self@.m,
                forall|k: int| 0 <= k < near@.len() ==> (#[trigger] near@[k]) < n,
                i <= near@.len(),
                matching <= i,
                matching == w.matching(near@.take(i as int)).len(),
                beam@ == w.visit_all(before, w.matching(near@.take(i as int))),
                bridges@ == Walk::first(w.failing(near@.take(i as int)), max_bridges as int),
                beam@.ok(n),
                beam@.slack(n) <= before.slack(n),
            decreases near@.len() - i,
        {
            let id: usize = near[i] as usize;
            let ghost head = near@.take(i as int);
            let ghost more = near@.take(i + 1);
            proof {
                assert(more.drop_last() =~= head);
                assert(more.last() == near@[i as int]);
            }
            let hit = self.node_matches(id, predicate);
            assert(hit == w.matches(id as int));
            if hit {
                matching += 1;
                self.visit(kernel, query, id, predicate, beam)?;
                proof {
                    assert(w.matching(more).drop_last() =~= w.matching(head));
                }
            } else {
                proof {
                    let all = w.failing(head);
                    if all.len() < max_bridges {
                        assert(Walk::first(all.push(near@[i as int]), max_bridges as int) =~= all.push(
                            near@[i as int],
                        ));
                    } else {
                        assert(Walk::first(all.push(near@[i as int]), max_bridges as int)
                            =~= Walk::first(all, max_bridges as int));
                    }
                }
                if bridges.len() < max_bridges {
                    bridges.push(near[i]);
                }
            }
            i += 1;
        }
        assert(near@.take(near@.len() as int) =~= near@);
        Ok(matching)
    }

    /// Hop over the bridges: consider their matching neighbors until `missing`
    /// have been considered. Reports how many were.
    fn visit_bridged<K: Fn(Kernel, &[u32], &[u32]) -> u32>(
        &self,
        kernel: &K,
        query: &[u32],
        layer: usize,
        bridges: &[u32],
        missing: usize,
        predicate: Option<&Predicate>,
        beam: &mut Beam,
    ) -> (r: Result<usize, HnswError>)
        requires
            self.wf(),
            kernel_ok(*kernel),
            query@.len() == self@.dim,
            old(beam)@.ok(self@.nodes.len()),
        ensures
            ({
                let w = self.walk(*kernel, query@, predicate);
                let hops = Walk::first(w.across(bridges@, layer as int), missing as int);
                &&& r == Ok::<usize, HnswError>(hops.len() as usize)
                &&& final(beam)@ == w.visit_all(old(beam)@, hops)
            }),
            final(beam)@.ok(self@.nodes.len()),
            final(beam)@.slack(self@.nodes.len()) <= old(beam)@.slack(self@.nodes.len()),
    {
        let ghost w = self.walk(*kernel, query@, predicate);
        let ghost n = self@.nodes.len();
        let ghost before = beam@;
        let ghost all = w.across(bridges@, layer as int);
        let mut taken: usize = 0;
        let mut j: usize = 0;
        assert(bridges@.take(0) =~= Seq::<u32>::empty());
        while j < bridges.len() && taken < missing
            invariant
                self.wf(),
                kernel_ok(*kernel),
                query@.len() == self@.dim,
                w == self.walk(*kernel, query@, predicate),
                n == self@.nodes.len(),
                j <= bridges@.len(),
                taken <= missing,
                taken == Walk::first(
                    w.across(bridges@.take(j as int), layer as int),
                    missing as int,
                ).len(),
                beam@ == w.visit_all(
                    before,
                    Walk::first(w.across(bridges@.take(j as int), layer as int), missing as int),
                ),
                beam@.ok(n),
                beam@.slack(n) <= before.slack(n),
            decreases bridges@.len() - j,
        {
            let bridge: usize = bridges[j] as usize;
            let far = self.neighbors(bridge, layer);
            let ghost done = w.across(bridges@.take(j as int), layer as int);
            proof {
                assert(bridges@.take(j + 1).drop_last() =~= bridges@.take(j as int));
                assert(bridges@.take(j + 1).last() == bridges@[j as int]);
                assert(far@.take(0) =~= Seq::<u32>::empty());
                assert(done + w.matching(far@.take(0)) =~= done);
                if bridge < n {
                    assert(self@.node_ok(bridge as int));
                    if layer < self@.nodes[bridge as int].layers.len() {
                        assert(self@.list_ok(
                            layer as int,
                            self@.nodes[bridge as int].layers[layer as int],
                        ));
                    }
                }
            }
            let mut i: usize = 0;
            while i < far.len() && taken < missing
                invariant
                    self.wf(),
                    kernel_ok(*kernel),
                    query@.len() == self@.dim,
                    w == self.walk(*kernel, query@, predicate),
                    n == self@.nodes.len(),
                    forall|k: int| 0 <= k < far@.len() ==> (#[trigger] far@[k]) < n,
                    i <= far@.len(),
                    taken <= missing,
                    taken == Walk::first(
                        done + w.matching(far@.take(i as int)),
                        missing as int,
                    ).len(),
                    beam@ == w.visit_all(
                        before,
                        Walk::first(done + w.matching(far@.take(i as int)), missing as int),
                    ),
                    beam@.ok(n),
                    beam@.slack(n) <= before.slack(n),
                decreases far@.len() - i,
            {
                let id: usize = far[i] as usize;
                let ghost head = far@.take(i as int);
                let ghost more = far@.take(i + 1);
                proof {
                    assert(more.drop_last() =~= head);
                    assert(more.last() == far@[i as int]);
                }
                let hit = self.node_matches(id, predicate);
                assert(hit == w.matches(id as int));
                if hit {
                    proof {
                        let a = done + w.matching(head);
                        let b = done + w.matching(more);
                        assert(b =~= a.push(far@[i as int]));
                        assert(Walk::first(a, missing as int) =~= a);
                        assert(Walk::first(b, missing as int) =~= b);
                        assert(b.drop_last() =~= a);
                    }
                    taken += 1;
                    self.visit(kernel, query, id, predicate, beam)?;
                }
                i += 1;
            }
            proof {
                let full = done + w.matching(far@);
                assert(far@.take(far@.len() as int) =~= far@);
                if i < far@.len() {
                    w.lemma_matching_prefix(far@, i as int);
                    let part = done + w.matching(far@.take(i as int));
                    assert(Walk::first(part, missing as int) =~= Walk::first(full, missing as int));
                }
                assert(w.across(bridges@.take(j + 1), layer as int) == full);
            }
            j += 1;
        }
        proof {
            if j < bridges@.len() {
                w.lemma_across_prefix(bridges@, layer as int, j as int);
                let part = w.across(bridges@.take(j as int), layer as int);
                assert(Walk::first(part, missing as int) =~= Walk::first(all, missing as int));
            } else {
                assert(bridges@.take(j as int) =~= bridges@);
            }
        }
        Ok(taken)
    }
}

impl Hnsw {
    /// Route on through `near`, matching or not, while the detour allowance lasts.
    pub(crate) fn detour<K: Fn(Kernel, &[u32], &[u32]) -> u32>(
        &self,
        kernel: &K,
        query: &[u32],
        near: &[u32],
        predicate: Option<&Predicate>,
        beam: &mut Beam,
    ) -> (r: Result<(), HnswError>)
        requires
            self.wf(),
            kernel_ok(*kernel),
            query@.len() == self@.dim,
            old(beam)@.ok(self@.nodes.len()),
            forall|i: int| 0 <= i < near@.len() ==> (#[trigger] near@[i]) < self@.nodes.len(),
        ensures
            r == Ok::<(), HnswError>(()),
            final(beam)@ == self.walk(*kernel, query@, predicate).detour(old(beam)@, near@),
            final(beam)@.ok(self@.nodes.len()),
            final(beam)@.slack(self@.nodes.len()) <= old(beam)@.slack(self@.nodes.len()),
    {
        let ghost w = self.walk(*kernel, query@, predicate);
        let ghost n = self@.nodes.len();
        let ghost before = beam@;
        let mut i: usize = 0;
        assert(near@.take(0) =~= Seq::<u32>::empty());
        while i < near.len()
            invariant
                self.wf(),
                kernel_ok(*kernel),
                query@.len() == self@.dim,
                w == self.walk(*kernel, query@, predicate),
                n == self@.nodes.len(),
                forall|k: int| 0 <= k < near@.len() ==> (#[trigger] near@[k]) < n,
                i <= near@.len(),
                beam@ == w.detour(before, near@.take(i as int)),
                beam@.ok(n),
                beam@.slack(n) <= before.slack(n),
            decreases near@.len() - i,
        {
            proof {
                assert(near@.take(i + 1).drop_last() =~= near@.take(i as int));
                assert(near@.take(i + 1).last() == near@[i as int]);
            }
            if beam.detours > 0 {
                let ghost mid = beam@;
                if self.visit(kernel, query, near[i] as usize, predicate, beam)? {
                    beam.detours = beam.detours - 1;
                    assert(beam@ == w.detour(before, near@.take(i + 1)));
                }
            }
            i += 1;
        }
        assert(near@.take(near@.len() as int) =~= near@);
        Ok(())
    }

    /// Fold `id`'s neighbors into `beam`.
    ///
    /// Two bounds keep a filtered expansion from sweeping the graph: it reaches
    /// at most two hops, and takes at most `m` bridges, stopping as soon as `m`
    /// matching neighbors have been produced. When nothing matches that near, the
    /// walk goes on through the failing neighbors themselves, limited by the
    /// beam's detour allowance; the answer says whether that happened.
    pub(crate) fn expand<K: Fn(Kernel, &[u32], &[u32]) -> u32>(
        &self,
        kernel: &K,
        query: &[u32],
        id: usize,
        layer: usize,
        predicate: Option<&Predicate>,
        beam: &mut Beam,
        bridges: &mut Vec<u32>,
    ) -> (r: Result<bool, HnswError>)
        requires
            self.wf(),
            kernel_ok(*kernel),
            id < self@.nodes.len(),
            query@.len() == self@.dim,
            old(beam)@.ok(self@.nodes.len()),
        ensures
            ({
                let w = self.walk(*kernel, query@, predicate);
                r == Ok::<bool, HnswError>(w.filtered() && w.stranded(id as int, layer as int))
            }),
            final(beam)@ == self.walk(*kernel, query@, predicate).expand(
                old(beam)@,
                id as int,
                layer as int,
            ),
            final(beam)@.ok(self@.nodes.len()),
            final(beam)@.slack(self@.nodes.len()) <= old(beam)@.slack(self@.nodes.len()),
    {
        let ghost w = self.walk(*kernel, query@, predicate);
        let ghost n = self@.nodes.len();
        let ghost before = beam@;
        let near = self.neighbors(id, layer);
        proof {
            assert(self@.node_ok(id as int));
            if layer < self@.nodes[id as int].layers.len() {
                assert(self@.list_ok(layer as int, self@.nodes[id as int].layers[layer as int]));
            }
        }
        if !Self::is_filtered(predicate) {
            let mut i: usize = 0;
            assert(near@.take(0) =~= Seq::<u32>::empty());
            while i < near.len()
                invariant
                    self.wf(),
                    kernel_ok(*kernel),
                    query@.len() == self@.dim,
                    w == self.walk(*kernel, query@, predicate),
                    n == self@.nodes.len(),
                    forall|k: int| 0 <= k < near@.len() ==> (#[trigger] near@[k]) < n,
                    i <= near@.len(),
                    beam@ == w.visit_all(before, near@.take(i as int)),
                    beam@.ok(n),
                    beam@.slack(n) <= before.slack(n),
                decreases near@.len() - i,
            {
                proof {
                    assert(near@.take(i + 1).drop_last() =~= near@.take(i as int));
                    assert(near@.take(i + 1).last() == near@[i as int]);
                }
                self.visit(kernel, query, near[i] as usize, predicate, beam)?;
                i += 1;
            }
            assert(near@.take(near@.len() as int) =~= near@);
            return Ok(false);
        }
        let target: usize = self.m();
        let direct: usize = self.visit_direct(kernel, query, near, predicate, beam, bridges)?;
        let missing: usize = if direct < target { target - direct } else { 0 };
        proof {
            let hops = w.across(bridges@, layer as int);
            assert(Walk::first(hops, missing as int) =~= Walk::first(hops, target - direct));
        }
        let hopped: usize = self.visit_bridged(
            kernel,
            query,
            layer,
            bridges.as_slice(),
            missing,
            predicate,
            beam,
        )?;
        if direct == 0 && hopped == 0 {
            self.detour(kernel, query, near, predicate, beam)?;
            return Ok(true);
        }
        Ok(false)
    }

    /// A beam with budget `ef` and a detour allowance, seeded with entry points.
    pub(crate) fn seeded<K: Fn(Kernel, &[u32], &[u32]) -> u32>(
        &self,
        kernel: &K,
        query: &[u32],
        entry_points: &[usize],
        ef: usize,
        detours: usize,
        predicate: Option<&Predicate>,
    ) -> (r: Result<Beam, HnswError>)
        requires
            self.wf(),
            kernel_ok(*kernel),
            query@.len() == self@.dim,
            forall|i: int|
                0 <= i < entry_points@.len() ==> (#[trigger] entry_points@[i]) < self@.nodes.len(),
        ensures
            ({
                let n = self@.nodes.len();
                &&& r matches Ok(beam)
                &&& beam@ == self.walk(*kernel, query@, predicate).seed_all(
                    BeamState::new(ef as nat, detours as nat),
                    entry_points@,
                )
                &&& beam@.ok(n)
                &&& beam@.ef == ef
                &&& beam@.slack(n) <= n
            }),
    {
        let ghost w = self.walk(*kernel, query@, predicate);
        let ghost n = self@.nodes.len();
        let mut beam = Beam::new(ef, detours);
        let ghost fresh = beam@;
        let mut i: usize = 0;
        proof {
            assert(entry_points@.take(0) =~= Seq::<usize>::empty());
            assert(beam@.ok(n));
        }
        while i < entry_points.len()
            invariant
                self.wf(),
                kernel_ok(*kernel),
                query@.len() == self@.dim,
                w == self.walk(*kernel, query@, predicate),
                n == self@.nodes.len(),
                forall|k: int|
                    0 <= k < entry_points@.len() ==> (#[trigger] entry_points@[k]) < n,
                i <= entry_points@.len(),
                beam@ == w.seed_all(fresh, entry_points@.take(i as int)),
                beam@.ok(n),
                beam@.ef == ef,
                beam@.slack(n) <= n,
            decreases entry_points@.len() - i,
        {
            let ep: usize = entry_points[i];
            let ghost mid = beam@;
            proof {
                assert(entry_points@.take(i + 1).drop_last() =~= entry_points@.take(i as int));
                assert(entry_points@.take(i + 1).last() == entry_points@[i as int]);
                assert(self@.node_ok(ep as int));
            }
            if beam.see(ep) {
                proof {
                    mid.lemma_see(ep, n);
                }
                let d: u32 = self.distance_to(kernel, query, ep)?;
                let admissible = self.admissible(ep, predicate);
                proof {
                    assert(admissible == w.admissible(ep as int));
                    mid.see(ep).lemma_push(Cand { dist: d, id: ep }, admissible, n);
                }
                beam.push(Cand { dist: d, id: ep }, admissible);
            } else {
                assert(mid.see(ep) =~= mid);
            }
            i += 1;
        }
        assert(entry_points@.take(entry_points@.len() as int) =~= entry_points@);
        Ok(beam)
    }

    /// Greedy beam search within one layer, without a predicate: up to `ef`
    /// nearest candidates, nearest first.
    pub(crate) fn search_layer<K: Fn(Kernel, &[u32], &[u32]) -> u32>(
        &self,
        kernel: &K,
        query: &[u32],
        entry_points: &[usize],
        ef: usize,
        layer: usize,
    ) -> (r: Result<Vec<Cand>, HnswError>)
        requires
            self.wf(),
            kernel_ok(*kernel),
            query@.len() == self@.dim,
            forall|i: int|
                0 <= i < entry_points@.len() ==> (#[trigger] entry_points@[i]) < self@.nodes.len(),
        ensures
            r matches Ok(v) && v@ == self.walk(*kernel, query@, None).layer(
                entry_points@,
                ef as nat,
                layer as int,
            ) && ascending(v@) && (forall|i: int|
                0 <= i < v@.len() ==> (#[trigger] v@[i]).id < self@.nodes.len()),
    {
        let ghost w = self.walk(*kernel, query@, None);
        let ghost n = self@.nodes.len();
        let mut bridges: Vec<u32> = Vec::new();
        let mut beam = self.seeded(kernel, query, entry_points, ef, 0, None)?;
        let ghost seeded = beam@;
        let ghost mut pops: nat = n;
        let mut going = true;
        while going
            invariant
                self.wf(),
                kernel_ok(*kernel),
                query@.len() == self@.dim,
                w == self.walk(*kernel, query@, None),
                n == self@.nodes.len(),
                beam@.ok(n),
                going ==> beam@.slack(n) <= pops && beam@.ef == ef && w.drain(
                    beam@,
                    layer as int,
                    pops,
                ).results == w.drain(seeded, layer as int, n).results,
                !going ==> beam@.results == w.drain(seeded, layer as int, n).results,
            decreases pops + (if going {
                1int
            } else {
                0
            }),
        {
            let ghost top = beam@;
            let ghost before = pops;
            proof {
                lemma_visited_bound(top, n);
            }
            match beam.pop() {
                None => {
                    going = false;
                },
                Some(c) => {
                    proof {
                        top.lemma_pop(n);
                        assert(pops > 0);
                    }
                    if f32_less(beam.farthest(), c.dist) {
                        going = false;
                    } else {
                        self.expand(kernel, query, c.id, layer, None, &mut beam, &mut bridges)?;
                        proof {
                            pops = (pops - 1) as nat;
                            w.lemma_expand_keeps_ef(top.pop(), c.id as int, layer as int);
                        }
                    }
                },
            }
        }
        proof {
            assert forall|k: int| 0 <= k < beam@.results.len() implies (
            #[trigger] beam@.results[k]).id < n by {
                assert(beam@.visited.contains(beam@.results[k].id));
            }
        }
        Ok(beam.results)
    }

    /// Greedy descent from layer `top` down to layer `bottom`, from one entry
    /// point.
    pub(crate) fn descend<K: Fn(Kernel, &[u32], &[u32]) -> u32>(
        &self,
        kernel: &K,
        query: &[u32],
        entry: usize,
        top: usize,
        bottom: usize,
    ) -> (r: Result<Vec<usize>, HnswError>)
        requires
            self.wf(),
            kernel_ok(*kernel),
            query@.len() == self@.dim,
            entry < self@.nodes.len(),
            bottom >= 1,
        ensures
            r matches Ok(v) && v@ == self.walk(*kernel, query@, None).descend(
                seq![entry],
                top as int,
                bottom as int,
            ) && v@.len() == 1 && v@[0] < self@.nodes.len(),
    {
        let ghost w = self.walk(*kernel, query@, None);
        let mut eps: Vec<usize> = Vec::new();
        eps.push(entry);
        assert(eps@ =~= seq![entry]);
        let mut layer: usize = top;
        while layer >= bottom
            invariant
                self.wf(),
                kernel_ok(*kernel),
                query@.len() == self@.dim,
                w == self.walk(*kernel, query@, None),
                bottom >= 1,
                eps@.len() == 1,
                eps@[0] < self@.nodes.len(),
                w.descend(eps@, layer as int, bottom as int) == w.descend(
                    seq![entry],
                    top as int,
                    bottom as int,
                ),
            decreases layer,
        {
            let found = self.search_layer(kernel, query, eps.as_slice(), 1, layer)?;
            if found.len() > 0 {
                let id: usize = found[0].id;
                eps.clear();
                eps.push(id);
                assert(eps@ =~= seq![found@[0].id]);
            }
            layer = layer - 1;
        }
        Ok(eps)
    }

    /// Approximate k-nearest-neighbor search: up to `k` `(distance, id)` pairs,
    /// nearest first. `ef_search` is the layer-0 candidate budget, raised to at
    /// least `k`.
    pub fn search<K: Fn(Kernel, &[u32], &[u32]) -> u32>(
        &self,
        kernel: &K,
        query: &[u32],
        k: usize,
        ef_search: usize,
    ) -> (r: Result<Vec<(u32, usize)>, HnswError>)
        requires
            self.wf(),
            kernel_ok(*kernel),
        ensures
            answer(r) == search_result(
                self.walk(*kernel, query@, None),
                k as nat,
                ef_search as nat,
            ),
    {
        self.search_inner(kernel, query, k, ef_search, None)
    }

    /// Approximate k-nearest-neighbor search restricted to nodes whose stored
    /// attributes satisfy `predicate`. A node that fails it is never returned.
    ///
    /// The descent through the upper layers also looks for a match on each, so
    /// layer 0 is entered both near the query and inside the matching region. Two
    /// allowances, both multiples of the budget, bound the walk through nodes
    /// that can never be returned: how many failing nodes it may route through,
    /// and how many nodes it expands in all.
    pub fn search_filtered<K: Fn(Kernel, &[u32], &[u32]) -> u32>(
        &self,
        kernel: &K,
        query: &[u32],
        k: usize,
        ef_search: usize,
        predicate: &Predicate,
    ) -> (r: Result<Vec<(u32, usize)>, HnswError>)
        requires
            self.wf(),
            kernel_ok(*kernel),
        ensures
            answer(r) == search_result(
                self.walk(*kernel, query@, Some(predicate)),
                k as nat,
                ef_search as nat,
            ),
    {
        self.search_inner(kernel, query, k, ef_search, Some(predicate))
    }

    fn search_inner<K: Fn(Kernel, &[u32], &[u32]) -> u32>(
        &self,
        kernel: &K,
        query: &[u32],
        k: usize,
        ef_search: usize,
        predicate: Option<&Predicate>,
    ) -> (r: Result<Vec<(u32, usize)>, HnswError>)
        requires
            self.wf(),
            kernel_ok(*kernel),
        ensures
            answer(r) == search_result(
                self.walk(*kernel, query@, predicate),
                k as nat,
                ef_search as nat,
            ),
    {
        let ghost w = self.walk(*kernel, query@, predicate);
        let entry: usize = match self.entry_point() {
            Some(e) => e,
            None => {
                return Ok(Vec::new());
            },
        };
        if k == 0 {
            return Ok(Vec::new());
        }
        if query.len() != self.dim() {
            return Err(
                HnswError::DimensionMismatch { expected: self.dim(), got: query.len() },
            );
        }
        assert(w.plain() == self.walk(*kernel, query@, None));
        let ef: usize = if ef_search < k { k } else { ef_search };
        let found = if Self::is_filtered(predicate) {
            let detours: usize = times(ef, DETOURS_PER_EF);
            let allowed: usize = times(ef, EXPANSIONS_PER_EF);
            let (eps, left) = self.foothold(kernel, query, entry, predicate, detours, allowed)?;
            let (beam, _) = self.hunt(
                kernel,
                query,
                eps.as_slice(),
                ef,
                0,
                predicate,
                detours,
                left,
            )?;
            beam.results
        } else {
            let eps = self.descend(kernel, query, entry, self.max_layer(), 1)?;
            self.search_layer(kernel, query, eps.as_slice(), ef, 0)?
        };
        let out = first_pairs(found.as_slice(), k);
        assert(out@ =~= pairs(w.nearest(k as nat, ef_search as nat)));
        Ok(out)
    }
}

impl Walk {
    /// The live nodes among the first `upto`, scored.
    pub open spec fn live(self, upto: int) -> Seq<Cand>
        decreases upto,
    {
        if upto <= 0 {
            Seq::empty()
        } else if self.graph.nodes[upto - 1].deleted {
            self.live(upto - 1)
        } else {
            self.live(upto - 1).push(self.score(upto - 1))
        }
    }

    /// The `k` nearest live nodes of the whole graph.
    pub open spec fn exact(self, k: nat) -> Seq<Cand> {
        let all = sorted(self.live(self.graph.nodes.len() as int));
        if k < all.len() {
            all.take(k as int)
        } else {
            all
        }
    }
}

impl Hnsw {
    /// Exact k-nearest-neighbor search over all live vectors: the recall ceiling.
    pub fn brute_force<K: Fn(Kernel, &[u32], &[u32]) -> u32>(
        &self,
        kernel: &K,
        query: &[u32],
        k: usize,
    ) -> (r: Result<Vec<(u32, usize)>, HnswError>)
        requires
            self.wf(),
            kernel_ok(*kernel),
        ensures
            answer(r) == (if self@.nodes.len() > 0 && query@.len() != self@.dim {
                Err(
                    HnswError::DimensionMismatch {
                        expected: self@.dim as usize,
                        got: query@.len() as usize,
                    },
                )
            } else {
                Ok(pairs(self.walk(*kernel, query@, None).exact(k as nat)))
            }),
    {
        if !self.is_empty() && query.len() != self.dim() {
            return Err(
                HnswError::DimensionMismatch { expected: self.dim(), got: query.len() },
            );
        }
        let ghost w = self.walk(*kernel, query@, None);
        let mut all: Vec<Cand> = Vec::new();
        let mut id: usize = 0;
        while id < self.len()
            invariant
                self.wf(),
                kernel_ok(*kernel),
                w == self.walk(*kernel, query@, None),
                id <= self@.nodes.len(),
                self@.nodes.len() > 0 ==> query@.len() == self@.dim,
                all@ == w.live(id as int),
            decreases self@.nodes.len() - id,
        {
            assert(self@.node_ok(id as int));
            if !self.is_deleted(id) {
                let dist: u32 = self.distance_to(kernel, query, id)?;
                all.push(Cand { dist, id });
            }
            id += 1;
        }
        let ranked = sort(all.as_slice());
        let out = first_pairs(ranked.as_slice(), k);
        assert(out@ =~= pairs(w.exact(k as nat)));
        Ok(out)
    }
}

/// Distance-id pairs of the first `k` candidates.
fn first_pairs(found: &[Cand], k: usize) -> (out: Vec<(u32, usize)>)
    ensures
        out@ == pairs(
            if k < found@.len() {
                found@.take(k as int)
            } else {
                found@
            },
        ),
{
    let count: usize = if k < found.len() { k } else { found.len() };
    let mut out: Vec<(u32, usize)> = Vec::new();
    let mut i: usize = 0;
    while i < count
        invariant
            i <= count <= found@.len(),
            out@ == pairs(found@.take(i as int)),
        decreases count - i,
    {
        out.push((found[i].dist, found[i].id));
        i += 1;
        assert(out@ =~= pairs(found@.take(i as int)));
    }
    assert(found@.take(found@.len() as int) =~= found@);
    out
}

/// No more nodes are considered than there are.
proof fn lemma_visited_bound(b: BeamState, n: nat)
    requires
        b.ok(n),
    ensures
        b.visited.len() <= n,
{
    let ids = b.visited.map(|id: usize| id as int);
    let all = vstd::set_lib::set_int_range(0, n as int);
    vstd::set_lib::lemma_int_range(0, n as int);
    assert(vstd::relations::injective(|id: usize| id as int));
    vstd::set_lib::lemma_map_size(b.visited, ids, |id: usize| id as int);
    assert(ids.subset_of(all)) by {
        assert forall|x: int| ids.contains(x) implies all.contains(x) by {
            let id = choose|id: usize| b.visited.contains(id) && id as int == x;
            assert(id < n);
        }
    }
    vstd::set_lib::lemma_len_subset(ids, all);
}

impl Walk {
    /// Considering nodes never changes the budget.
    proof fn lemma_visit_all_keeps_ef(self, b: BeamState, ids: Seq<u32>)
        ensures
            self.visit_all(b, ids).ef == b.ef,
        decreases ids.len(),
    {
        if ids.len() > 0 {
            self.lemma_visit_all_keeps_ef(b, ids.drop_last());
        }
    }

    /// Detours never change the budget.
    pub proof fn lemma_detour_keeps_ef(self, b: BeamState, ids: Seq<u32>)
        ensures
            self.detour(b, ids).ef == b.ef,
        decreases ids.len(),
    {
        if ids.len() > 0 {
            self.lemma_detour_keeps_ef(b, ids.drop_last());
        }
    }

    /// An expansion never changes the budget.
    pub proof fn lemma_expand_keeps_ef(self, b: BeamState, id: int, layer: int)
        ensures
            self.expand(b, id, layer).ef == b.ef,
    {
        let near = self.graph.neighbors(id, layer);
        self.lemma_visit_all_keeps_ef(b, near);
        let c = self.visit_all(b, self.matching(near));
        self.lemma_visit_all_keeps_ef(b, self.matching(near));
        self.lemma_visit_all_keeps_ef(c, self.bridged(near, layer));
        self.lemma_detour_keeps_ef(self.visit_all(c, self.bridged(near, layer)), near);
    }
}

impl Walk {
    /// What matches in a prefix is a prefix of what matches.
    proof fn lemma_matching_prefix(self, ids: Seq<u32>, upto: int)
        requires
            0 <= upto <= ids.len(),
        ensures
            self.matching(ids.take(upto)).len() <= self.matching(ids).len(),
            self.matching(ids).take(self.matching(ids.take(upto)).len() as int) == self.matching(
                ids.take(upto),
            ),
        decreases ids.len(),
    {
        if upto == ids.len() {
            assert(ids.take(upto) =~= ids);
            assert(self.matching(ids).take(self.matching(ids).len() as int) =~= self.matching(ids));
        } else {
            self.lemma_matching_prefix(ids.drop_last(), upto);
            assert(ids.drop_last().take(upto) =~= ids.take(upto));
            assert(self.matching(ids).take(self.matching(ids.take(upto)).len() as int)
                =~= self.matching(ids.take(upto)));
        }
    }

    /// What lies across a prefix of the bridges is a prefix of what lies across
    /// them all.
    proof fn lemma_across_prefix(self, bridges: Seq<u32>, layer: int, upto: int)
        requires
            0 <= upto <= bridges.len(),
        ensures
            self.across(bridges.take(upto), layer).len() <= self.across(bridges, layer).len(),
            self.across(bridges, layer).take(
                self.across(bridges.take(upto), layer).len() as int,
            ) == self.across(bridges.take(upto), layer),
        decreases bridges.len(),
    {
        let part = self.across(bridges.take(upto), layer);
        if upto == bridges.len() {
            assert(bridges.take(upto) =~= bridges);
            assert(part.take(part.len() as int) =~= part);
        } else {
            self.lemma_across_prefix(bridges.drop_last(), layer, upto);
            assert(bridges.drop_last().take(upto) =~= bridges.take(upto));
            assert(self.across(bridges, layer).take(part.len() as int) =~= part);
        }
    }
}

} // verus!
