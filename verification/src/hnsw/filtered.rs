//! The predicate-aware walk: where a filtered search starts, how it gets from
//! one group of matching nodes to the next, and what bounds it.
//!
//! A filtered search may walk through nodes it can never return, so a full set of
//! answers cannot be what stops it. Two allowances do. Both are multiples of the
//! budget and neither grows with the graph: how many failing nodes may be routed
//! through, one for the descent and one for layer 0, and how many nodes may be
//! expanded in the whole search. Navigation without the predicate draws on
//! neither.

use super::beam::{
    ascending, insert_asc, insert_sorted, lemma_insert_asc, lemma_insert_asc_len, Beam, BeamState,
    Cand,
};
use super::graph::Hnsw;
use super::params::HnswError;
use super::search::Walk;
use crate::distance::{kernel_ok, Kernel};
use crate::filter::Predicate;
use crate::floats::f32_less;
use vstd::prelude::*;

verus! {

/// Failing nodes that may be routed through, per unit of budget.
pub const DETOURS_PER_EF: usize = 4;

/// Nodes that may be expanded, per unit of budget.
pub const EXPANSIONS_PER_EF: usize = 16;

/// A multiple of the budget, as far as a machine word holds it.
pub open spec fn allowance(ef: nat, by: nat) -> nat {
    if ef * by <= usize::MAX {
        ef * by
    } else {
        usize::MAX as nat
    }
}

/// A multiple of the budget, as far as a machine word holds it.
pub(crate) fn times(ef: usize, by: usize) -> (r: usize)
    ensures
        r == allowance(ef as nat, by as nat),
{
    match ef.checked_mul(by) {
        Some(r) => r,
        None => usize::MAX,
    }
}

/// Where one layer's filtered walk ended.
pub struct Trail {
    pub beam: BeamState,
    /// How many more nodes the search may expand.
    pub left: nat,
}

/// Where a filtered descent has arrived.
pub struct Foothold {
    /// The node nearest the query, matching or not.
    pub nav: usize,
    /// A node that may be returned, once one has been found.
    pub seed: Seq<usize>,
    /// How many more nodes the search may expand.
    pub left: nat,
}

impl Foothold {
    /// What the layer below is entered from.
    pub open spec fn entry(self) -> Seq<usize> {
        seq![self.nav] + self.seed
    }
}

impl Walk {
    /// The walk of one layer under a predicate, with `left` expansions allowed.
    ///
    /// It expands the nearest node of the frontier while that can improve the
    /// answers. A node it moves on from without a detour, because something
    /// matched near it, is remembered in `passed`. When the frontier runs empty
    /// with the budget unfilled, the walk goes back to the nearest of those and
    /// routes on through its failing neighbors, while the detour allowance lasts.
    pub open spec fn roam(self, b: BeamState, passed: Seq<Cand>, left: nat, layer: int) -> Trail
        decreases 2 * left + passed.len(),
    {
        if left == 0 {
            Trail { beam: b, left }
        } else if b.frontier.len() > 0 {
            if self.finished(b) {
                Trail { beam: b, left }
            } else {
                let c = b.frontier[0];
                proof {
                    lemma_insert_asc_len(passed, c);
                }
                self.roam(
                    self.expand(b.pop(), c.id as int, layer),
                    if self.stranded(c.id as int, layer) {
                        passed
                    } else {
                        insert_asc(passed, c)
                    },
                    (left - 1) as nat,
                    layer,
                )
            }
        } else if passed.len() == 0 || b.results.len() >= b.ef || b.detours == 0 {
            Trail { beam: b, left }
        } else {
            self.roam(
                self.detour(b, self.graph.neighbors(passed[0].id as int, layer)),
                passed.drop_first(),
                left,
                layer,
            )
        }
    }

    /// One layer walked from entry points, with its answers and what is left of
    /// both allowances.
    pub open spec fn hunt(
        self,
        entry: Seq<usize>,
        ef: nat,
        layer: int,
        detours: nat,
        left: nat,
    ) -> Trail {
        self.roam(self.seed_all(BeamState::new(ef, detours), entry), Seq::empty(), left, layer)
    }

    /// Where a filtered descent from layer `top` down to layer 1 arrives.
    ///
    /// Each layer is searched twice: for the node nearest the query, without the
    /// predicate, and for the nearest match, from that node and from the match
    /// found on the layer above.
    pub open spec fn foothold(
        self,
        nav: usize,
        seed: Seq<usize>,
        top: int,
        detours: nat,
        left: nat,
    ) -> Foothold
        decreases top,
    {
        if top < 1 {
            Foothold { nav, seed, left }
        } else {
            let near = self.plain().layer(seq![nav], 1, top);
            let next = if near.len() > 0 {
                near[0].id
            } else {
                nav
            };
            let t = self.hunt(seq![next] + seed, 1, top, detours, left);
            let found = t.beam.results;
            self.foothold(
                next,
                if found.len() > 0 {
                    seq![found[0].id]
                } else {
                    seed
                },
                top - 1,
                t.beam.detours,
                t.left,
            )
        }
    }
}

impl Hnsw {
    /// Walk one layer under a predicate: the beam it ends with, and how many more
    /// nodes may be expanded.
    pub(crate) fn hunt<K: Fn(Kernel, &[u32], &[u32]) -> u32>(
        &self,
        kernel: &K,
        query: &[u32],
        entry_points: &[usize],
        ef: usize,
        layer: usize,
        predicate: Option<&Predicate>,
        detours: usize,
        allowed: usize,
    ) -> (r: Result<(Beam, usize), HnswError>)
        requires
            self.wf(),
            kernel_ok(*kernel),
            query@.len() == self@.dim,
            self.walk(*kernel, query@, predicate).filtered(),
            forall|i: int|
                0 <= i < entry_points@.len() ==> (#[trigger] entry_points@[i]) < self@.nodes.len(),
        ensures
            ({
                &&& r matches Ok((beam, left))
                &&& self.walk(*kernel, query@, predicate).hunt(
                    entry_points@,
                    ef as nat,
                    layer as int,
                    detours as nat,
                    allowed as nat,
                ) == (Trail { beam: beam@, left: left as nat })
                &&& beam@.ok(self@.nodes.len())
            }),
    {
        let ghost w = self.walk(*kernel, query@, predicate);
        let ghost n = self@.nodes.len();
        let mut bridges: Vec<u32> = Vec::new();
        let mut passed: Vec<Cand> = Vec::new();
        let mut left: usize = allowed;
        let mut beam = self.seeded(kernel, query, entry_points, ef, detours, predicate)?;
        let ghost goal = w.roam(beam@, passed@, left as nat, layer as int);
        let mut going = true;
        while going && left > 0
            invariant
                self.wf(),
                kernel_ok(*kernel),
                query@.len() == self@.dim,
                w == self.walk(*kernel, query@, predicate),
                w.filtered(),
                n == self@.nodes.len(),
                beam@.ok(n),
                ascending(passed@),
                forall|i: int| 0 <= i < passed@.len() ==> (#[trigger] passed@[i]).id < n,
                going ==> w.roam(beam@, passed@, left as nat, layer as int) == goal,
                !going ==> goal == (Trail { beam: beam@, left: left as nat }),
            decreases 2 * left + passed@.len() + (if going {
                1int
            } else {
                0
            }),
        {
            let ghost top = beam@;
            let ghost before = passed@;
            if beam.frontier.len() > 0 {
                if f32_less(beam.farthest(), beam.frontier[0].dist) && beam.results.len()
                    >= beam.ef {
                    going = false;
                } else {
                    proof {
                        top.lemma_pop(n);
                    }
                    if let Some(c) = beam.pop() {
                        let stranded = self.expand(
                            kernel,
                            query,
                            c.id,
                            layer,
                            predicate,
                            &mut beam,
                            &mut bridges,
                        )?;
                        if !stranded {
                            proof {
                                lemma_insert_asc(passed@, c);
                            }
                            insert_sorted(&mut passed, c);
                            proof {
                                lemma_walked_past(before, c, n);
                            }
                        }
                        left = left - 1;
                    }
                }
            } else if passed.len() == 0 || beam.results.len() >= beam.ef || beam.detours == 0 {
                going = false;
            } else {
                let c = passed.remove(0);
                assert(passed@ =~= before.drop_first());
                let near = self.neighbors(c.id, layer);
                proof {
                    assert(before[0].id < n);
                    assert(self@.node_ok(c.id as int));
                    if layer < self@.nodes[c.id as int].layers.len() {
                        assert(self@.list_ok(
                            layer as int,
                            self@.nodes[c.id as int].layers[layer as int],
                        ));
                    }
                    assert forall|i: int| 0 <= i < passed@.len() implies (#[trigger] passed@[i]).id
                        < n by {
                        assert(passed@[i] == before[i + 1]);
                    }
                }
                self.detour(kernel, query, near, predicate, &mut beam)?;
            }
        }
        Ok((beam, left))
    }

    /// Descend to layer 1 under a predicate: what layer 0 is entered from, and how
    /// many more nodes may be expanded.
    pub(crate) fn foothold<K: Fn(Kernel, &[u32], &[u32]) -> u32>(
        &self,
        kernel: &K,
        query: &[u32],
        entry: usize,
        predicate: Option<&Predicate>,
        detours: usize,
        allowed: usize,
    ) -> (r: Result<(Vec<usize>, usize), HnswError>)
        requires
            self.wf(),
            kernel_ok(*kernel),
            query@.len() == self@.dim,
            entry < self@.nodes.len(),
            self.walk(*kernel, query@, predicate).filtered(),
        ensures
            ({
                let f = self.walk(*kernel, query@, predicate).foothold(
                    entry,
                    Seq::empty(),
                    self@.max_layer as int,
                    detours as nat,
                    allowed as nat,
                );
                &&& r matches Ok((eps, left))
                &&& eps@ == f.entry()
                &&& left == f.left
                &&& forall|i: int| 0 <= i < eps@.len() ==> (#[trigger] eps@[i]) < self@.nodes.len()
            }),
    {
        let ghost w = self.walk(*kernel, query@, predicate);
        let ghost n = self@.nodes.len();
        let mut eps: Vec<usize> = Vec::new();
        eps.push(entry);
        let mut pot: usize = detours;
        let mut left: usize = allowed;
        let mut layer: usize = self.max_layer();
        let ghost goal = w.foothold(entry, Seq::empty(), layer as int, pot as nat, left as nat);
        assert(eps@.skip(1) =~= Seq::<usize>::empty());
        assert(w.plain() == self.walk(*kernel, query@, None));
        while layer >= 1
            invariant
                self.wf(),
                kernel_ok(*kernel),
                query@.len() == self@.dim,
                w == self.walk(*kernel, query@, predicate),
                w.plain() == self.walk(*kernel, query@, None),
                w.filtered(),
                n == self@.nodes.len(),
                1 <= eps@.len() <= 2,
                forall|i: int| 0 <= i < eps@.len() ==> (#[trigger] eps@[i]) < n,
                w.foothold(eps@[0], eps@.skip(1), layer as int, pot as nat, left as nat) == goal,
            decreases layer,
        {
            let ghost seed = eps@.skip(1);
            let mut nav: Vec<usize> = Vec::new();
            nav.push(eps[0]);
            assert(nav@ =~= seq![eps@[0]]);
            let near = self.search_layer(kernel, query, nav.as_slice(), 1, layer)?;
            if near.len() > 0 {
                eps.set(0, near[0].id);
            }
            let ghost next = eps@[0];
            assert(eps@.skip(1) =~= seed);
            assert(eps@ =~= seq![next] + seed);
            let (beam, rest) = self.hunt(
                kernel,
                query,
                eps.as_slice(),
                1,
                layer,
                predicate,
                pot,
                left,
            )?;
            if beam.results.len() > 0 {
                let found: usize = beam.results[0].id;
                assert(beam@.visited.contains(beam@.results[0].id));
                eps.truncate(1);
                eps.push(found);
                assert(eps@.skip(1) =~= seq![found]);
            }
            pot = beam.detours;
            left = rest;
            layer = layer - 1;
        }
        assert(eps@ =~= goal.entry());
        Ok((eps, left))
    }
}

/// A filtered search navigates as an unfiltered one does: where its descent
/// arrives near the query does not depend on the predicate.
pub proof fn navigation_ignores_the_predicate(
    w: Walk,
    nav: usize,
    seed: Seq<usize>,
    top: int,
    detours: nat,
    left: nat,
)
    ensures
        w.plain().descend(seq![nav], top, 1) == seq![w.foothold(nav, seed, top, detours, left).nav],
    decreases top,
{
    if top >= 1 {
        let near = w.plain().layer(seq![nav], 1, top);
        let next = if near.len() > 0 {
            near[0].id
        } else {
            nav
        };
        let t = w.hunt(seq![next] + seed, 1, top, detours, left);
        let found = t.beam.results;
        let more = if found.len() > 0 {
            seq![found[0].id]
        } else {
            seed
        };
        navigation_ignores_the_predicate(w, next, more, top - 1, t.beam.detours, t.left);
        assert(w.foothold(nav, seed, top, detours, left) == w.foothold(
            next,
            more,
            top - 1,
            t.beam.detours,
            t.left,
        ));
    }
}

/// A walk that fills its budget never goes back to what it walked past: it ends
/// just where expanding the frontier alone ends.
pub proof fn full_answers_never_go_back(
    w: Walk,
    b: BeamState,
    passed: Seq<Cand>,
    left: nat,
    layer: int,
)
    requires
        w.drain(b, layer, left).results.len() >= b.ef,
    ensures
        w.roam(b, passed, left, layer).beam == w.drain(b, layer, left),
    decreases left,
{
    if left > 0 && b.frontier.len() > 0 && !w.finished(b) {
        let c = b.frontier[0];
        let id = c.id as int;
        w.lemma_expand_keeps_ef(b.pop(), id, layer);
        full_answers_never_go_back(
            w,
            w.expand(b.pop(), id, layer),
            if w.stranded(id, layer) {
                passed
            } else {
                insert_asc(passed, c)
            },
            (left - 1) as nat,
            layer,
        );
    }
}

/// A predicate nothing satisfies leaves nothing to go back to: the walk ends just
/// where expanding the frontier alone ends.
pub proof fn unsatisfiable_filters_never_go_back(w: Walk, b: BeamState, left: nat, layer: int)
    requires
        w.graph.valid(),
        forall|id: int| 0 <= id < w.graph.nodes.len() ==> !(#[trigger] w.matches(id)),
    ensures
        w.roam(b, Seq::empty(), left, layer).beam == w.drain(b, layer, left),
    decreases left,
{
    if left > 0 && b.frontier.len() > 0 && !w.finished(b) {
        let id = b.frontier[0].id as int;
        let near = w.graph.neighbors(id, layer);
        w.graph.lemma_links_in_range(id, layer);
        lemma_none_match(w, near);
        lemma_none_across(w, Walk::first(w.failing(near), w.graph.m as int), layer);
        assert(w.stranded(id, layer));
        unsatisfiable_filters_never_go_back(
            w,
            w.expand(b.pop(), id, layer),
            (left - 1) as nat,
            layer,
        );
    }
}

/// Both allowances are totals: each layer of a search starts from what the one
/// before it left, and none hands down more than it was given.
pub proof fn allowances_only_shrink(
    w: Walk,
    b: BeamState,
    passed: Seq<Cand>,
    left: nat,
    layer: int,
)
    ensures
        w.roam(b, passed, left, layer).left <= left,
        w.roam(b, passed, left, layer).beam.detours <= b.detours,
    decreases 2 * left + passed.len(),
{
    if left == 0 {
    } else if b.frontier.len() > 0 {
        if !w.finished(b) {
            let c = b.frontier[0];
            let id = c.id as int;
            lemma_expand_detours(w, b.pop(), id, layer);
            lemma_insert_asc_len(passed, c);
            allowances_only_shrink(
                w,
                w.expand(b.pop(), id, layer),
                if w.stranded(id, layer) {
                    passed
                } else {
                    insert_asc(passed, c)
                },
                (left - 1) as nat,
                layer,
            );
        }
    } else if !(passed.len() == 0 || b.results.len() >= b.ef || b.detours == 0) {
        let near = w.graph.neighbors(passed[0].id as int, layer);
        lemma_detour_detours(w, b, near);
        allowances_only_shrink(w, w.detour(b, near), passed.drop_first(), left, layer);
    }
}

proof fn lemma_visit_all_detours(w: Walk, b: BeamState, ids: Seq<u32>)
    ensures
        w.visit_all(b, ids).detours == b.detours,
    decreases ids.len(),
{
    if ids.len() > 0 {
        lemma_visit_all_detours(w, b, ids.drop_last());
    }
}

proof fn lemma_detour_detours(w: Walk, b: BeamState, ids: Seq<u32>)
    ensures
        w.detour(b, ids).detours <= b.detours,
    decreases ids.len(),
{
    if ids.len() > 0 {
        lemma_detour_detours(w, b, ids.drop_last());
    }
}

proof fn lemma_expand_detours(w: Walk, b: BeamState, id: int, layer: int)
    ensures
        w.expand(b, id, layer).detours <= b.detours,
{
    let near = w.graph.neighbors(id, layer);
    lemma_visit_all_detours(w, b, near);
    lemma_visit_all_detours(w, b, w.matching(near));
    let c = w.visit_all(b, w.matching(near));
    lemma_visit_all_detours(w, c, w.bridged(near, layer));
    lemma_detour_detours(w, w.visit_all(c, w.bridged(near, layer)), near);
}

proof fn lemma_none_match(w: Walk, ids: Seq<u32>)
    requires
        forall|id: int| 0 <= id < w.graph.nodes.len() ==> !(#[trigger] w.matches(id)),
        forall|i: int| 0 <= i < ids.len() ==> (#[trigger] ids[i]) < w.graph.nodes.len(),
    ensures
        w.matching(ids).len() == 0,
    decreases ids.len(),
{
    if ids.len() > 0 {
        assert(ids[ids.len() - 1] < w.graph.nodes.len());
        assert forall|i: int| 0 <= i < ids.len() - 1 implies (#[trigger] ids.drop_last()[i])
            < w.graph.nodes.len() by {
            assert(ids.drop_last()[i] == ids[i]);
        }
        lemma_none_match(w, ids.drop_last());
    }
}

proof fn lemma_none_across(w: Walk, bridges: Seq<u32>, layer: int)
    requires
        w.graph.valid(),
        forall|id: int| 0 <= id < w.graph.nodes.len() ==> !(#[trigger] w.matches(id)),
    ensures
        w.across(bridges, layer).len() == 0,
    decreases bridges.len(),
{
    if bridges.len() > 0 {
        lemma_none_across(w, bridges.drop_last(), layer);
        w.graph.lemma_links_in_range(bridges.last() as int, layer);
        lemma_none_match(w, w.graph.neighbors(bridges.last() as int, layer));
    }
}

/// What has been walked past stays within the first `n` nodes.
proof fn lemma_walked_past(passed: Seq<Cand>, c: Cand, n: nat)
    requires
        ascending(passed),
        c.id < n,
        forall|i: int| 0 <= i < passed.len() ==> (#[trigger] passed[i]).id < n,
    ensures
        forall|i: int|
            0 <= i < insert_asc(passed, c).len() ==> (#[trigger] insert_asc(passed, c)[i]).id < n,
{
    lemma_insert_asc(passed, c);
    let more = insert_asc(passed, c);
    assert forall|i: int| 0 <= i < more.len() implies (#[trigger] more[i]).id < n by {
        assert(more.contains(more[i]));
        if more[i] != c {
            let k = choose|k: int| 0 <= k < passed.len() && passed[k] == more[i];
            assert(passed[k].id < n);
        }
    }
}

} // verus!
