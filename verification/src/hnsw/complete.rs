//! What a search cannot miss.
//!
//! A walk considers nodes one after the other and keeps the best. The lemmas here
//! follow what becomes of a node once it is considered: it is held as an answer,
//! or the answers are full and it is no nearer than the farthest of them; and its
//! neighbors are considered too, unless it waits on the frontier or is too far.
//! The laws at the end say what that comes to, in terms of the graph alone.

use super::beam::{
    ascending, cand_le, insert_asc, lemma_insert_asc, lemma_insert_asc_len, BeamState, Cand,
};
use super::filtered::{allowance, DETOURS_PER_EF, EXPANSIONS_PER_EF};
use super::found::{answers_are_sound, distinct, exact_answers_are_the_nearest};
use super::graph::{Graph, Hnsw};
use super::params::HnswError;
use super::search::{pairs, search_result, Walk};
use crate::distance::Kernel;
use crate::filter::Predicate;
use crate::floats::{
    f32_is_nan, f32_lt, f32_rank, f32_value, lemma_f32_value_order, F32_INFINITY,
};
use crate::vector::metric_distance;
use vstd::prelude::*;
use vstd::set_lib::{lemma_int_range, lemma_len_subset, set_int_range};

verus! {

/// Among numbers, the total order does not contradict the IEEE one.
pub(crate) proof fn lemma_ranks_and_values(a: u32, b: u32)
    ensures
        f32_lt(a, b) ==> f32_rank(a) < f32_rank(b),
        !f32_is_nan(a) && !f32_is_nan(b) && f32_rank(a) <= f32_rank(b) ==> f32_value(a)
            <= f32_value(b),
        !f32_lt(F32_INFINITY, b),
{
    lemma_f32_value_order(a, b);
    lemma_f32_value_order(b, a);
    lemma_f32_value_order(F32_INFINITY, b);
}

/// Nodes, all of them.
spec fn anywhere() -> spec_fn(int) -> bool {
    |id: int| true
}

impl BeamState {
    /// Node `k` waits to be expanded.
    spec fn queued(self, k: usize) -> bool {
        exists|i: int| 0 <= i < self.frontier.len() && (#[trigger] self.frontier[i]).id == k
    }
}

impl Walk {
    /// The answers are full, and node `k` is no nearer than the farthest of them.
    spec fn shut(self, b: BeamState, k: usize) -> bool {
        b.results.len() == b.ef && !f32_lt(self.score(k as int).dist, b.farthest())
    }

    /// Node `k` is no answer, and could not be one.
    spec fn passed_over(self, b: BeamState, k: usize) -> bool {
        self.shut(b, k) && !b.results.contains(self.score(k as int))
    }

    /// Every returnable node considered is an answer, or could not be one; and
    /// what waits is scored.
    spec fn settled(self, b: BeamState) -> bool {
        &&& b.ef > 0
        &&& self.kept(b, anywhere())
        &&& forall|k: usize| #[trigger]
            b.visited.contains(k) && self.admissible(k as int) ==> b.results.contains(
                self.score(k as int),
            ) || self.shut(b, k)
        &&& forall|i: int|
            0 <= i < b.frontier.len() ==> #[trigger] b.frontier[i] == self.score(
                b.frontier[i].id as int,
            )
    }

    /// What considering more nodes does to a beam.
    spec fn advances(self, b: BeamState, c: BeamState) -> bool {
        &&& c.ef == b.ef
        &&& b.visited.subset_of(c.visited)
        &&& forall|k: usize| #[trigger] b.queued(k) ==> c.queued(k)
        &&& forall|k: usize| #[trigger] self.shut(b, k) ==> self.shut(c, k)
        &&& forall|k: usize| #[trigger]
            c.visited.contains(k) && !b.visited.contains(k) ==> c.queued(k) || self.passed_over(
                c,
                k,
            )
        &&& forall|k: usize| #[trigger]
            b.visited.contains(k) && c.results.contains(self.score(k as int))
                ==> b.results.contains(self.score(k as int))
        &&& c.slack(self.graph.nodes.len()) <= b.slack(self.graph.nodes.len())
    }

    proof fn lemma_advances(self, a: BeamState, b: BeamState, c: BeamState)
        requires
            self.advances(a, b),
            self.advances(b, c),
        ensures
            self.advances(a, c),
    {
        assert forall|k: usize| #[trigger]
            c.visited.contains(k) && !a.visited.contains(k) implies c.queued(k) || self.passed_over(
            c,
            k,
        ) by {
            if b.visited.contains(k) {
                assert(b.queued(k) || self.passed_over(b, k));
                if !b.queued(k) {
                    assert(self.shut(b, k));
                }
            }
        }
        assert forall|k: usize| #[trigger]
            a.visited.contains(k) && c.results.contains(
                self.score(k as int),
            ) implies a.results.contains(self.score(k as int)) by {
            assert(b.visited.contains(k));
        }
    }

    proof fn lemma_stays(self, b: BeamState)
        ensures
            self.advances(b, b),
    {
    }

    /// Considering a node holds on to what matters.
    proof fn lemma_visit_advances(self, b: BeamState, id: int)
        requires
            self.settled(b),
            0 <= id < self.graph.nodes.len() <= Hnsw::MAX_NODES,
        ensures
            self.settled(self.visit(b, id)),
            self.advances(b, self.visit(b, id)),
            self.visit(b, id).visited.contains(id as usize),
            b.visited.contains(id as usize) ==> self.visit(b, id) == b,
            !b.visited.contains(id as usize) ==> self.visit(b, id).visited.len() == b.visited.len()
                + 1,
    {
        let n = self.graph.nodes.len();
        let c = self.visit(b, id);
        let me = self.score(id);
        if b.visited.contains(id as usize) {
            assert(b.see(id as usize) =~= b);
            self.lemma_stays(b);
        } else {
            self.lemma_push_kept(b, id, anywhere());
            b.lemma_see(id as usize, n);
            let seen = b.see(id as usize);
            if self.joins(b, id) {
                seen.lemma_push(me, self.admissible(id), n);
                lemma_insert_asc(b.frontier, me);
                lemma_insert_asc(b.results, me);
                self.lemma_join_settles(b, id);
                assert forall|i: int| 0 <= i < c.frontier.len() implies #[trigger] c.frontier[i]
                    == self.score(c.frontier[i].id as int) by {
                    assert(insert_asc(b.frontier, me).contains(c.frontier[i]));
                    if c.frontier[i] != me {
                        let k = choose|k: int| 0 <= k < b.frontier.len() && b.frontier[k]
                            == c.frontier[i];
                        assert(b.frontier[k] == self.score(b.frontier[k].id as int));
                    }
                }
                assert forall|k: usize| #[trigger] b.queued(k) implies c.queued(k) by {
                    let i = choose|i: int|
                        0 <= i < b.frontier.len() && (#[trigger] b.frontier[i]).id == k;
                    assert(b.frontier.contains(b.frontier[i]));
                    assert(insert_asc(b.frontier, me).contains(b.frontier[i]));
                    let j = choose|j: int| 0 <= j < c.frontier.len() && c.frontier[j]
                        == b.frontier[i];
                    assert(c.frontier[j].id == k);
                }
                assert(c.queued(id as usize)) by {
                    assert(insert_asc(b.frontier, me).contains(me));
                    let j = choose|j: int| 0 <= j < c.frontier.len() && c.frontier[j] == me;
                    assert(c.frontier[j].id == id as usize);
                }
            } else {
                assert(!b.results.contains(me)) by {
                    if b.results.contains(me) {
                        let i = choose|i: int| 0 <= i < b.results.len() && b.results[i] == me;
                        assert(b.visited.contains(b.results[i].id));
                    }
                }
                assert(self.passed_over(c, id as usize));
                assert forall|k: usize| #[trigger] b.queued(k) implies c.queued(k) by {
                    let i = choose|i: int|
                        0 <= i < b.frontier.len() && (#[trigger] b.frontier[i]).id == k;
                    assert(c.frontier[i].id == k);
                }
            }
        }
    }

    /// Joining changes the answers as it should.
    proof fn lemma_join_settles(self, b: BeamState, id: int)
        requires
            self.settled(b),
            0 <= id < self.graph.nodes.len() <= Hnsw::MAX_NODES,
            !b.visited.contains(id as usize),
            self.joins(b, id),
        ensures
            ({
                let c = self.visit(b, id);
                &&& forall|k: usize| #[trigger]
                    c.visited.contains(k) && self.admissible(k as int) ==> c.results.contains(
                        self.score(k as int),
                    ) || self.shut(c, k)
                &&& forall|k: usize| #[trigger] self.shut(b, k) ==> self.shut(c, k)
                &&& forall|k: usize| #[trigger]
                    b.visited.contains(k) && c.results.contains(self.score(k as int))
                        ==> b.results.contains(self.score(k as int))
            }),
    {
        let c = self.visit(b, id);
        let me = self.score(id);
        let more = insert_asc(b.results, me);
        lemma_insert_asc(b.results, me);
        if self.admissible(id) {
            if b.results.len() == b.ef {
                let far = b.results.last();
                let out = more.last();
                lemma_ranks_and_values(me.dist, far.dist);
                assert(out == far) by {
                    assert(more.contains(far)) by {
                        assert(b.results.contains(far));
                    }
                    assert(more.contains(out));
                    let j = choose|j: int| 0 <= j < more.len() && more[j] == far;
                    assert(cand_le(more[j], more[more.len() - 1]));
                    if out == me {
                        assert(false);
                    }
                    let k = choose|k: int| 0 <= k < b.results.len() && b.results[k] == out;
                    assert(cand_le(b.results[k], b.results[b.results.len() - 1]));
                }
                assert(c.results == more.drop_last());
                assert(c.results.len() == b.ef);
                let near = c.results.last();
                assert(near == more[more.len() - 2]);
                assert(cand_le(more[more.len() - 2], more[more.len() - 1]));
                lemma_ranks_and_values(near.dist, far.dist);
                assert forall|k: usize| #[trigger] self.shut(b, k) implies self.shut(c, k) by {
                    let x = self.score(k as int).dist;
                    lemma_ranks_and_values(x, near.dist);
                    if f32_lt(x, near.dist) {
                        assert(f32_value(near.dist) <= f32_value(far.dist));
                        assert(f32_lt(x, far.dist));
                    }
                }
                assert forall|k: usize| #[trigger]
                    c.visited.contains(k) && self.admissible(k as int) implies c.results.contains(
                    self.score(k as int),
                ) || self.shut(c, k) by {
                    let s = self.score(k as int);
                    if k == id as usize {
                        assert(more.contains(me));
                        let j = choose|j: int| 0 <= j < more.len() && more[j] == me;
                        assert(c.results[j] == me);
                    } else {
                        assert(b.visited.contains(k));
                        if b.results.contains(s) {
                            assert(more.contains(s));
                            let j = choose|j: int| 0 <= j < more.len() && more[j] == s;
                            if j < more.len() - 1 {
                                assert(c.results[j] == s);
                            } else {
                                lemma_ranks_and_values(s.dist, near.dist);
                                assert(self.shut(c, k));
                            }
                        } else {
                            assert(self.shut(b, k));
                        }
                    }
                }
            } else {
                assert(c.results == more);
                assert forall|k: usize| #[trigger]
                    c.visited.contains(k) && self.admissible(k as int) implies c.results.contains(
                    self.score(k as int),
                ) || self.shut(c, k) by {
                    if k != id as usize {
                        assert(b.visited.contains(k));
                        assert(b.results.contains(self.score(k as int)) || self.shut(b, k));
                    }
                    assert(more.contains(me));
                }
            }
            assert forall|k: usize| #[trigger]
                b.visited.contains(k) && c.results.contains(
                    self.score(k as int),
                ) implies b.results.contains(self.score(k as int)) by {
                let s = self.score(k as int);
                assert(k as int as usize == k);
                let j = choose|j: int| 0 <= j < c.results.len() && c.results[j] == s;
                assert(more[j] == s);
                assert(more.contains(s));
                assert(s.id == k);
                assert(s != me);
            }
        } else {
            assert(c.results == b.results);
        }
    }
}

impl Walk {
    proof fn lemma_visit_all_advances(self, b: BeamState, ids: Seq<u32>)
        requires
            self.settled(b),
            self.graph.nodes.len() <= Hnsw::MAX_NODES,
            forall|i: int| 0 <= i < ids.len() ==> (#[trigger] ids[i]) < self.graph.nodes.len(),
        ensures
            self.settled(self.visit_all(b, ids)),
            self.advances(b, self.visit_all(b, ids)),
            self.visit_all(b, ids).detours == b.detours,
            forall|i: int|
                0 <= i < ids.len() ==> self.visit_all(b, ids).visited.contains(
                    (#[trigger] ids[i]) as usize,
                ),
        decreases ids.len(),
    {
        if ids.len() == 0 {
            self.lemma_stays(b);
        } else {
            let head = ids.drop_last();
            assert forall|i: int| 0 <= i < head.len() implies (#[trigger] head[i])
                < self.graph.nodes.len() by {
                assert(head[i] == ids[i]);
            }
            self.lemma_visit_all_advances(b, head);
            let mid = self.visit_all(b, head);
            let last = ids.len() - 1;
            assert(ids[last] < self.graph.nodes.len());
            self.lemma_visit_advances(mid, ids[last] as int);
            let c = self.visit_all(b, ids);
            self.lemma_advances(b, mid, c);
            assert forall|i: int| 0 <= i < ids.len() implies c.visited.contains(
                (#[trigger] ids[i]) as usize,
            ) by {
                if i < last {
                    assert(mid.visited.contains(head[i] as usize));
                }
            }
        }
    }

    /// Detours are left for every node not yet considered.
    spec fn ample(self, b: BeamState) -> bool {
        b.detours + b.visited.len() > self.graph.nodes.len()
    }

    proof fn lemma_visited_fit(self, b: BeamState)
        requires
            self.settled(b),
        ensures
            b.visited.len() <= self.graph.nodes.len(),
            b.visited.len() == self.graph.nodes.len() ==> forall|k: int|
                0 <= k < self.graph.nodes.len() <= Hnsw::MAX_NODES ==> #[trigger] self.visits(b, k),
    {
        let n = self.graph.nodes.len();
        let ids = b.visited.map(|id: usize| id as int);
        let all = set_int_range(0, n as int);
        lemma_int_range(0, n as int);
        assert(vstd::relations::injective(|id: usize| id as int));
        vstd::set_lib::lemma_map_size(b.visited, ids, |id: usize| id as int);
        assert(ids.subset_of(all)) by {
            assert forall|x: int| ids.contains(x) implies all.contains(x) by {
                let id = choose|id: usize| b.visited.contains(id) && id as int == x;
                assert(id < n);
            }
        }
        lemma_len_subset(ids, all);
        if b.visited.len() == n && n <= Hnsw::MAX_NODES {
            vstd::set_lib::lemma_subset_equality(ids, all);
            assert forall|k: int| 0 <= k < n implies #[trigger] self.visits(b, k) by {
                assert(ids.contains(k));
                let id = choose|id: usize| b.visited.contains(id) && id as int == k;
                assert(id == k as usize);
            }
        }
    }

    /// Node `k` has been considered.
    spec fn visits(self, b: BeamState, k: int) -> bool {
        b.visited.contains(k as usize)
    }

    proof fn lemma_detour_advances(self, b: BeamState, ids: Seq<u32>)
        requires
            self.settled(b),
            self.graph.nodes.len() <= Hnsw::MAX_NODES,
            forall|i: int| 0 <= i < ids.len() ==> (#[trigger] ids[i]) < self.graph.nodes.len(),
        ensures
            self.settled(self.detour(b, ids)),
            self.advances(b, self.detour(b, ids)),
            self.ample(b) ==> self.ample(self.detour(b, ids)) && forall|i: int|
                0 <= i < ids.len() ==> self.detour(b, ids).visited.contains(
                    (#[trigger] ids[i]) as usize,
                ),
        decreases ids.len(),
    {
        if ids.len() == 0 {
            self.lemma_stays(b);
        } else {
            let head = ids.drop_last();
            assert forall|i: int| 0 <= i < head.len() implies (#[trigger] head[i])
                < self.graph.nodes.len() by {
                assert(head[i] == ids[i]);
            }
            self.lemma_detour_advances(b, head);
            let mid = self.detour(b, head);
            let last = ids.len() - 1;
            let id = ids[last] as int;
            assert(ids[last] < self.graph.nodes.len());
            let c = self.detour(b, ids);
            self.lemma_visited_fit(mid);
            if mid.detours == 0 {
                assert(c == mid);
            } else {
                self.lemma_visit_advances(mid, id);
                let seen = self.visit(mid, id);
                self.lemma_same_advances(mid, seen, c);
                self.lemma_advances(b, mid, c);
            }
            if self.ample(b) {
                assert forall|i: int| 0 <= i < ids.len() implies c.visited.contains(
                    (#[trigger] ids[i]) as usize,
                ) by {
                    if i < last {
                        assert(mid.visited.contains(head[i] as usize));
                    }
                }
            }
        }
    }

    /// The detour allowance is no part of what is settled.
    proof fn lemma_same_advances(self, a: BeamState, b: BeamState, c: BeamState)
        requires
            self.settled(b),
            self.advances(a, b),
            c == (BeamState { detours: c.detours, ..b }),
        ensures
            self.settled(c),
            self.advances(a, c),
    {
        assert forall|k: usize| #[trigger] c.queued(k) == b.queued(k) by {
            if b.queued(k) {
                let i = choose|i: int|
                    0 <= i < b.frontier.len() && (#[trigger] b.frontier[i]).id == k;
                assert(c.frontier[i].id == k);
            }
            if c.queued(k) {
                let i = choose|i: int|
                    0 <= i < c.frontier.len() && (#[trigger] c.frontier[i]).id == k;
                assert(b.frontier[i].id == k);
            }
        }
        assert forall|k: usize| #[trigger] self.shut(c, k) == self.shut(b, k) by {}
        assert(c.slack(self.graph.nodes.len()) == b.slack(self.graph.nodes.len()));
        assert forall|k: usize| #[trigger] a.queued(k) implies c.queued(k) by {
            assert(b.queued(k));
        }
        assert forall|k: usize| #[trigger] self.shut(a, k) implies self.shut(c, k) by {
            assert(self.shut(b, k));
        }
        assert forall|k: usize| #[trigger]
            c.visited.contains(k) && !a.visited.contains(k) implies c.queued(k) || self.passed_over(
            c,
            k,
        ) by {
            assert(b.visited.contains(k));
            assert(b.queued(k) || self.passed_over(b, k));
        }
        assert forall|k: usize| #[trigger]
            c.visited.contains(k) && self.admissible(k as int) implies c.results.contains(
            self.score(k as int),
        ) || self.shut(c, k) by {
            assert(b.visited.contains(k));
        }
        assert forall|k: usize| #[trigger]
            a.visited.contains(k) && c.results.contains(
                self.score(k as int),
            ) implies a.results.contains(self.score(k as int)) by {
            assert(b.results.contains(self.score(k as int)));
        }
    }

    /// Every matching neighbor of node `k` has been considered, and under a
    /// predicate every match that one expansion reaches across bridges.
    spec fn met(self, b: BeamState, k: usize, layer: int) -> bool {
        &&& forall|i: int|
            0 <= i < self.graph.neighbors(k as int, layer).len() && self.matches(
                self.graph.neighbors(k as int, layer)[i] as int,
            ) ==> b.visited.contains((#[trigger] self.graph.neighbors(k as int, layer)[i]) as usize)
        &&& self.filtered() ==> self.hopped(b, k, layer)
    }

    /// Every match across the bridges of node `k` has been considered.
    spec fn hopped(self, b: BeamState, k: usize, layer: int) -> bool {
        forall|i: int|
            0 <= i < self.bridged(self.graph.neighbors(k as int, layer), layer).len()
                ==> b.visited.contains(
                (#[trigger] self.bridged(self.graph.neighbors(k as int, layer), layer)[i]) as usize,
            )
    }

    proof fn lemma_met_grows(self, b: BeamState, c: BeamState, layer: int)
        requires
            b.visited.subset_of(c.visited),
        ensures
            forall|k: usize| #[trigger] self.met(b, k, layer) ==> self.met(c, k, layer),
    {
        assert forall|k: usize| #[trigger] self.met(b, k, layer) implies self.met(c, k, layer) by {
            let near = self.graph.neighbors(k as int, layer);
            let hops = self.bridged(near, layer);
            assert forall|i: int|
                0 <= i < near.len() && self.matches(near[i] as int) implies c.visited.contains(
                (#[trigger] near[i]) as usize,
            ) by {
                assert(b.visited.contains(near[i] as usize));
            }
            if self.filtered() {
                assert(self.hopped(b, k, layer));
                assert forall|i: int| 0 <= i < hops.len() implies c.visited.contains(
                    (#[trigger] hops[i]) as usize,
                ) by {
                    assert(b.visited.contains(hops[i] as usize));
                }
            }
        }
    }

    /// Every neighbor of node `k` has been considered.
    spec fn surrounded(self, b: BeamState, k: usize, layer: int) -> bool {
        forall|i: int|
            0 <= i < self.graph.neighbors(k as int, layer).len() ==> b.visited.contains(
                (#[trigger] self.graph.neighbors(k as int, layer)[i]) as usize,
            )
    }

    /// Every node considered but `skip` waits, could not be an answer, or has had
    /// its matching neighbors considered.
    spec fn followed(self, b: BeamState, layer: int, skip: int) -> bool {
        forall|k: usize| #[trigger]
            b.visited.contains(k) && k != skip ==> b.queued(k) || self.passed_over(b, k)
                || self.met(b, k, layer)
    }

    /// Every node considered but `skip` waits, could not be an answer, was walked
    /// past, or has had all its neighbors considered.
    spec fn spanned(self, b: BeamState, passed: Seq<Cand>, layer: int, skip: int) -> bool {
        forall|k: usize| #[trigger]
            b.visited.contains(k) && k != skip ==> b.queued(k) || self.passed_over(b, k)
                || self.surrounded(b, k, layer) || in_list(passed, k)
    }

    proof fn lemma_still_followed(
        self,
        b: BeamState,
        c: BeamState,
        passed: Seq<Cand>,
        layer: int,
        skip: int,
    )
        requires
            self.advances(b, c),
        ensures
            self.followed(b, layer, skip) ==> self.followed(c, layer, skip),
            self.spanned(b, passed, layer, skip) ==> self.spanned(c, passed, layer, skip),
            forall|k: usize| #[trigger] self.met(b, k, layer) ==> self.met(c, k, layer),
            forall|k: usize| #[trigger]
                self.surrounded(b, k, layer) ==> self.surrounded(c, k, layer),
    {
        self.lemma_met_grows(b, c, layer);
        assert forall|k: usize| #[trigger] self.surrounded(b, k, layer) implies self.surrounded(
            c,
            k,
            layer,
        ) by {
            let near = self.graph.neighbors(k as int, layer);
            assert forall|i: int| 0 <= i < near.len() implies c.visited.contains(
                (#[trigger] near[i]) as usize,
            ) by {
                assert(b.visited.contains(near[i] as usize));
            }
        }
        assert forall|k: usize| #[trigger]
            b.visited.contains(k) && self.passed_over(b, k) implies self.passed_over(c, k) by {
            assert(self.shut(b, k));
        }
        if self.followed(b, layer, skip) {
            assert forall|k: usize| #[trigger]
                c.visited.contains(k) && k != skip implies c.queued(k) || self.passed_over(c, k)
                || self.met(c, k, layer) by {
                if b.visited.contains(k) {
                    assert(b.queued(k) || self.passed_over(b, k) || self.met(b, k, layer));
                }
            }
        }
        if self.spanned(b, passed, layer, skip) {
            assert forall|k: usize| #[trigger]
                c.visited.contains(k) && k != skip implies c.queued(k) || self.passed_over(c, k)
                || self.surrounded(c, k, layer) || in_list(passed, k) by {
                if b.visited.contains(k) {
                    assert(b.queued(k) || self.passed_over(b, k) || self.surrounded(b, k, layer)
                        || in_list(passed, k));
                }
            }
        }
    }
}

/// A node is among candidates.
spec fn in_list(list: Seq<Cand>, k: usize) -> bool {
    exists|i: int| 0 <= i < list.len() && (#[trigger] list[i]).id == k
}

impl Walk {
    /// What matches in a list is among its matches.
    proof fn lemma_matching_has(self, ids: Seq<u32>, i: int)
        requires
            0 <= i < ids.len(),
            self.matches(ids[i] as int),
        ensures
            exists|j: int|
                0 <= j < self.matching(ids).len() && #[trigger] self.matching(ids)[j] == ids[i],
        decreases ids.len(),
    {
        let head = ids.drop_last();
        let all = self.matching(ids);
        if i == ids.len() - 1 {
            assert(all[all.len() - 1] == ids[i]);
        } else {
            assert(head[i] == ids[i]);
            self.lemma_matching_has(head, i);
            let j = choose|j: int|
                0 <= j < self.matching(head).len() && #[trigger] self.matching(head)[j] == head[i];
            assert(all[j] == ids[i]);
        }
    }

    /// What one expansion reaches across bridges are nodes.
    proof fn lemma_hops_in_range(self, id: int, layer: int)
        requires
            self.graph.valid(),
        ensures
            forall|i: int|
                0 <= i < self.bridged(self.graph.neighbors(id, layer), layer).len() ==> (
                #[trigger] self.bridged(self.graph.neighbors(id, layer), layer)[i])
                    < self.graph.nodes.len(),
    {
        let near = self.graph.neighbors(id, layer);
        let bridges = Self::first(self.failing(near), self.graph.m as int);
        self.lemma_across_within(bridges, layer, anywhere());
        let hops = self.bridged(near, layer);
        assert forall|i: int| 0 <= i < hops.len() implies (#[trigger] hops[i])
            < self.graph.nodes.len() by {
            assert(hops[i] == self.across(bridges, layer)[i]);
        }
    }

    /// Expanding a node considers its matching neighbors; all of them, when
    /// nothing matches near it and detours are left.
    proof fn lemma_expand_advances(self, b: BeamState, id: usize, layer: int)
        requires
            self.settled(b),
            self.graph.valid(),
            self.graph.nodes.len() <= Hnsw::MAX_NODES,
        ensures
            ({
                let c = self.expand(b, id as int, layer);
                &&& self.settled(c)
                &&& self.advances(b, c)
                &&& self.met(c, id, layer)
                &&& self.ample(b) ==> self.ample(c)
                &&& self.ample(b) && self.filtered() && self.stranded(id as int, layer)
                    ==> self.surrounded(c, id, layer)
            }),
    {
        let near = self.graph.neighbors(id as int, layer);
        let c = self.expand(b, id as int, layer);
        self.graph.lemma_links_in_range(id as int, layer);
        if !self.filtered() {
            self.lemma_visit_all_advances(b, near);
        } else {
            let direct = self.matching(near);
            self.lemma_matching_members(near);
            assert forall|i: int| 0 <= i < direct.len() implies (#[trigger] direct[i])
                < self.graph.nodes.len() by {
                let k = choose|k: int| 0 <= k < near.len() && near[k] == self.matching(near)[i];
                assert(near[k] < self.graph.nodes.len());
            }
            self.lemma_visit_all_advances(b, direct);
            let first = self.visit_all(b, direct);
            self.lemma_hops_in_range(id as int, layer);
            let hops = self.bridged(near, layer);
            self.lemma_visit_all_advances(first, hops);
            let second = self.visit_all(first, hops);
            self.lemma_advances(b, first, second);
            assert(self.met(second, id, layer)) by {
                assert forall|i: int|
                    0 <= i < near.len() && self.matches(
                        near[i] as int,
                    ) implies second.visited.contains((#[trigger] near[i]) as usize) by {
                    self.lemma_matching_has(near, i);
                    let j = choose|j: int|
                        0 <= j < self.matching(near).len() && #[trigger] self.matching(near)[j]
                            == near[i];
                    assert(first.visited.contains(direct[j] as usize));
                }
            }
            assert(self.ample(b) ==> self.ample(second)) by {
                self.lemma_visited_grow(b, second);
            }
            if self.stranded(id as int, layer) {
                self.lemma_detour_advances(second, near);
                self.lemma_advances(b, second, c);
                self.lemma_still_followed(second, c, Seq::empty(), layer, -1);
            }
        }
        if self.ample(b) && !self.filtered() {
            self.lemma_visited_grow(b, c);
        }
    }

    proof fn lemma_visited_grow(self, b: BeamState, c: BeamState)
        requires
            self.settled(c),
            b.visited.subset_of(c.visited),
        ensures
            b.visited.len() <= c.visited.len(),
    {
        lemma_len_subset(b.visited, c.visited);
    }

    /// Taking the nearest waiting node off the frontier.
    proof fn lemma_pop_settles(self, b: BeamState)
        requires
            self.settled(b),
            b.frontier.len() > 0,
        ensures
            self.settled(b.pop()),
            b.pop().slack(self.graph.nodes.len()) == b.slack(self.graph.nodes.len()) - 1,
            b.visited.contains(b.frontier[0].id),
            self.ample(b) ==> self.ample(b.pop()),
            forall|k: usize| #[trigger]
                b.queued(k) && k != b.frontier[0].id ==> b.pop().queued(k),
            forall|k: usize| #[trigger] self.passed_over(b, k) ==> self.passed_over(b.pop(), k),
    {
        let n = self.graph.nodes.len();
        let c = b.pop();
        b.lemma_pop(n);
        self.lemma_pop_kept(b, anywhere());
        assert forall|i: int| 0 <= i < c.frontier.len() implies #[trigger] c.frontier[i]
            == self.score(c.frontier[i].id as int) by {
            assert(c.frontier[i] == b.frontier[i + 1]);
        }
        assert forall|k: usize| #[trigger] b.queued(k) && k != b.frontier[0].id implies c.queued(
            k,
        ) by {
            let i = choose|i: int| 0 <= i < b.frontier.len() && (#[trigger] b.frontier[i]).id == k;
            assert(c.frontier[i - 1].id == k);
        }
        assert forall|k: usize| #[trigger]
            c.visited.contains(k) && self.admissible(k as int) implies c.results.contains(
            self.score(k as int),
        ) || self.shut(c, k) by {
            assert(b.visited.contains(k));
            assert(self.shut(b, k) == self.shut(c, k));
        }
    }

    /// One expansion of the nearest waiting node.
    proof fn lemma_step(self, b: BeamState, layer: int)
        requires
            self.settled(b),
            self.followed(b, layer, -1),
            b.frontier.len() > 0,
            self.graph.valid(),
            self.graph.nodes.len() <= Hnsw::MAX_NODES,
        ensures
            ({
                let id = b.frontier[0].id;
                let c = self.expand(b.pop(), id as int, layer);
                &&& self.settled(c)
                &&& self.followed(c, layer, -1)
                &&& self.met(c, id, layer)
                &&& b.visited.subset_of(c.visited)
                &&& b.visited.contains(id)
                &&& c.ef == b.ef
                &&& c.slack(self.graph.nodes.len()) < b.slack(self.graph.nodes.len())
                &&& self.ample(b) ==> self.ample(c)
                &&& forall|k: usize| #[trigger] self.met(b, k, layer) ==> self.met(c, k, layer)
            }),
    {
        let id = b.frontier[0].id;
        let p = b.pop();
        let c = self.expand(p, id as int, layer);
        self.lemma_pop_settles(b);
        self.lemma_met_grows(b, p, layer);
        assert(self.followed(p, layer, id as int)) by {
            assert forall|k: usize| #[trigger]
                p.visited.contains(k) && k != id implies p.queued(k) || self.passed_over(p, k)
                || self.met(p, k, layer) by {
                assert(b.visited.contains(k));
                assert(b.queued(k) || self.passed_over(b, k) || self.met(b, k, layer));
            }
        }
        self.lemma_expand_advances(p, id, layer);
        self.lemma_still_followed(p, c, Seq::empty(), layer, id as int);
        assert(self.followed(c, layer, -1)) by {
            assert forall|k: usize| #[trigger] c.visited.contains(k) implies c.queued(k)
                || self.passed_over(c, k) || self.met(c, k, layer) by {
                if k != id {
                    assert(c.queued(k) || self.passed_over(c, k) || self.met(c, k, layer));
                }
            }
        }
    }

    /// Where a walk of one layer without a predicate ends.
    proof fn lemma_drain_ends(self, b: BeamState, layer: int, pops: nat)
        requires
            self.settled(b),
            self.followed(b, layer, -1),
            b.slack(self.graph.nodes.len()) <= pops,
            self.graph.valid(),
            self.graph.nodes.len() <= Hnsw::MAX_NODES,
        ensures
            ({
                let c = self.drain(b, layer, pops);
                &&& self.settled(c)
                &&& self.followed(c, layer, -1)
                &&& c.frontier.len() == 0 || self.finished(c)
                &&& b.visited.subset_of(c.visited)
                &&& c.ef == b.ef
                &&& forall|k: usize| #[trigger] self.met(b, k, layer) ==> self.met(c, k, layer)
            }),
        decreases pops,
    {
        self.lemma_visited_fit(b);
        if pops == 0 || b.frontier.len() == 0 || self.finished(b) {
        } else {
            self.lemma_step(b, layer);
            let mid = self.expand(b.pop(), b.frontier[0].id as int, layer);
            self.lemma_drain_ends(mid, layer, (pops - 1) as nat);
        }
    }
}

impl Walk {
    /// A beam that has only been seeded: every node considered waits, and a
    /// returnable one that is no answer comes after all of a full set.
    spec fn primed(self, b: BeamState) -> bool {
        &&& b.ef > 0
        &&& self.kept(b, anywhere())
        &&& forall|k: usize| #[trigger]
            b.visited.contains(k) && self.admissible(k as int) ==> b.results.contains(
                self.score(k as int),
            ) || (b.results.len() == b.ef && cand_le(b.results.last(), self.score(k as int)))
        &&& forall|i: int|
            0 <= i < b.frontier.len() ==> #[trigger] b.frontier[i] == self.score(
                b.frontier[i].id as int,
            )
        &&& forall|k: usize| #[trigger] b.visited.contains(k) ==> b.queued(k)
    }

    proof fn lemma_seed_primes(self, b: BeamState, id: int)
        requires
            self.primed(b),
            0 <= id < self.graph.nodes.len() <= Hnsw::MAX_NODES,
            !b.visited.contains(id as usize),
        ensures
            self.primed(self.seed(b, id)),
            self.seed(b, id).slack(self.graph.nodes.len()) == b.slack(self.graph.nodes.len()),
    {
        let n = self.graph.nodes.len();
        let me = self.score(id);
        let c = self.seed(b, id);
        let more = insert_asc(b.results, me);
        self.lemma_push_kept(b, id, anywhere());
        b.lemma_see(id as usize, n);
        b.see(id as usize).lemma_push(me, self.admissible(id), n);
        lemma_insert_asc(b.frontier, me);
        lemma_insert_asc(b.results, me);
        assert forall|i: int| 0 <= i < c.frontier.len() implies #[trigger] c.frontier[i]
            == self.score(c.frontier[i].id as int) by {
            assert(insert_asc(b.frontier, me).contains(c.frontier[i]));
            if c.frontier[i] != me {
                let k = choose|k: int| 0 <= k < b.frontier.len() && b.frontier[k] == c.frontier[i];
                assert(b.frontier[k] == self.score(b.frontier[k].id as int));
            }
        }
        assert forall|k: usize| #[trigger] c.visited.contains(k) implies c.queued(k) by {
            let x = if k == id as usize {
                me
            } else {
                assert(b.visited.contains(k));
                let i = choose|i: int|
                    0 <= i < b.frontier.len() && (#[trigger] b.frontier[i]).id == k;
                assert(b.frontier.contains(b.frontier[i]));
                b.frontier[i]
            };
            assert(insert_asc(b.frontier, me).contains(x));
            let j = choose|j: int| 0 <= j < c.frontier.len() && c.frontier[j] == x;
            assert(c.frontier[j].id == k);
        }
        assert forall|k: usize| #[trigger]
            c.visited.contains(k) && self.admissible(k as int) implies c.results.contains(
            self.score(k as int),
        ) || (c.results.len() == c.ef && cand_le(c.results.last(), self.score(k as int))) by {
            let s = self.score(k as int);
            if k != id as usize {
                assert(b.visited.contains(k));
            }
            if self.admissible(id) && more.len() > b.ef {
                assert(c.results == more.drop_last());
                let m = more.len() as int;
                assert(cand_le(more[m - 2], more[m - 1]));
                assert(more.contains(more[m - 2]) && more.contains(more[m - 1]));
                if more.contains(s) {
                    let j = choose|j: int| 0 <= j < more.len() && more[j] == s;
                    if j < m - 1 {
                        assert(c.results[j] == s);
                    }
                } else {
                    assert(!b.results.contains(s) && s != me);
                    self.lemma_last_is_farthest(b, more[m - 1]);
                    self.lemma_last_is_farthest(b, more[m - 2]);
                    if more[m - 2] == me {
                        assert(more[m - 1] == me || b.results.contains(more[m - 1]));
                        if more[m - 1] == me {
                            self.lemma_insert_once(b.results, me);
                        }
                    }
                }
            } else if self.admissible(id) {
                if more.contains(s) {
                    assert(c.results.contains(s));
                }
            }
        }
    }

    /// No answer comes after the last.
    proof fn lemma_last_is_farthest(self, b: BeamState, c: Cand)
        requires
            self.kept(b, anywhere()),
        ensures
            b.results.contains(c) ==> cand_le(c, b.results.last()),
    {
        if b.results.contains(c) {
            let i = choose|i: int| 0 <= i < b.results.len() && b.results[i] == c;
            assert(cand_le(b.results[i], b.results[b.results.len() - 1]));
        }
    }

    /// A new candidate put in its place stands there once.
    proof fn lemma_insert_once(self, s: Seq<Cand>, c: Cand)
        requires
            ascending(s),
            !s.contains(c),
            insert_asc(s, c).len() >= 2,
            insert_asc(s, c)[insert_asc(s, c).len() - 1] == c,
        ensures
            insert_asc(s, c)[insert_asc(s, c).len() - 2] != c,
    {
        if s.len() == 0 || cand_le(s.last(), c) {
            assert(insert_asc(s, c)[s.len() - 1] == s[s.len() - 1]);
        } else {
            lemma_insert_asc_len(s.drop_last(), c);
            assert(s.contains(s[s.len() - 1]));
        }
    }

    /// The beam a walk of one layer starts from.
    proof fn lemma_seeded(self, entry: Seq<usize>, ef: nat, detours: nat)
        requires
            ef > 0,
            self.graph.nodes.len() <= Hnsw::MAX_NODES,
            forall|i: int| 0 <= i < entry.len() ==> (#[trigger] entry[i]) < self.graph.nodes.len(),
        ensures
            ({
                let b = self.seed_all(BeamState::new(ef, detours), entry);
                &&& self.primed(b)
                &&& b.ef == ef
                &&& b.detours == detours
                &&& b.slack(self.graph.nodes.len()) == self.graph.nodes.len()
                &&& forall|i: int|
                    0 <= i < entry.len() ==> b.visited.contains(#[trigger] entry[i])
            }),
        decreases entry.len(),
    {
        let fresh = BeamState::new(ef, detours);
        if entry.len() == 0 {
            assert(self.kept(fresh, anywhere()));
            assert(fresh.visited.len() == 0);
        } else {
            let head = entry.drop_last();
            assert forall|i: int| 0 <= i < head.len() implies (#[trigger] head[i])
                < self.graph.nodes.len() by {
                assert(head[i] == entry[i]);
            }
            self.lemma_seeded(head, ef, detours);
            let mid = self.seed_all(fresh, head);
            let b = self.seed_all(fresh, entry);
            assert(entry[entry.len() - 1] < self.graph.nodes.len());
            if !mid.visited.contains(entry.last()) {
                self.lemma_seed_primes(mid, entry.last() as int);
            }
            assert forall|i: int| 0 <= i < entry.len() implies b.visited.contains(
                #[trigger] entry[i],
            ) by {
                if i < head.len() {
                    assert(mid.visited.contains(head[i]));
                }
            }
        }
    }

    /// A seeded beam leaves nothing out.
    proof fn lemma_primed_settles(self, b: BeamState, layer: int)
        requires
            self.primed(b),
        ensures
            self.settled(b),
            self.followed(b, layer, -1),
            self.spanned(b, Seq::empty(), layer, -1),
    {
        assert forall|k: usize| #[trigger]
            b.visited.contains(k) && self.admissible(k as int) implies b.results.contains(
            self.score(k as int),
        ) || self.shut(b, k) by {
            if !b.results.contains(self.score(k as int)) {
                lemma_ranks_and_values(self.score(k as int).dist, b.results.last().dist);
            }
        }
    }
}

impl Walk {
    /// Every node considered has had its matching neighbors considered, could not
    /// be an answer, or waits too far away.
    spec fn explored(self, b: BeamState, layer: int) -> bool {
        forall|k: usize| #[trigger]
            b.visited.contains(k) ==> self.met(b, k, layer) || self.passed_over(b, k) || (b.queued(
                k,
            ) && self.finished(b))
    }

    /// The answers are full, or every node considered has had all its neighbors
    /// considered.
    spec fn sated(self, b: BeamState, layer: int) -> bool {
        b.results.len() == b.ef || forall|k: usize| #[trigger]
            b.visited.contains(k) ==> self.surrounded(b, k, layer)
    }

    /// Where every node has been considered, so have all neighbors.
    proof fn lemma_all_visited(self, b: BeamState, layer: int)
        requires
            self.settled(b),
            self.graph.valid(),
            self.graph.nodes.len() <= Hnsw::MAX_NODES,
            b.slack(self.graph.nodes.len()) <= 0,
        ensures
            self.explored(b, layer),
            self.sated(b, layer),
    {
        self.lemma_visited_fit(b);
        assert forall|k: usize| #[trigger] b.visited.contains(k) implies self.surrounded(
            b,
            k,
            layer,
        ) && self.met(b, k, layer) by {
            let near = self.graph.neighbors(k as int, layer);
            self.graph.lemma_links_in_range(k as int, layer);
            assert forall|i: int| 0 <= i < near.len() implies b.visited.contains(
                (#[trigger] near[i]) as usize,
            ) by {
                assert(self.visits(b, near[i] as int));
            }
            self.lemma_hops_in_range(k as int, layer);
            let hops = self.bridged(near, layer);
            assert forall|i: int| 0 <= i < hops.len() implies b.visited.contains(
                (#[trigger] hops[i]) as usize,
            ) by {
                assert(self.visits(b, hops[i] as int));
            }
        }
    }

    /// What an expansion leaves to go back to.
    proof fn lemma_step_spans(self, b: BeamState, passed: Seq<Cand>, layer: int)
        requires
            self.settled(b),
            self.ample(b),
            self.filtered(),
            self.spanned(b, passed, layer, -1),
            ascending(passed),
            b.frontier.len() > 0,
            self.graph.valid(),
            self.graph.nodes.len() <= Hnsw::MAX_NODES,
        ensures
            ({
                let top = b.frontier[0];
                let c = self.expand(b.pop(), top.id as int, layer);
                &&& self.ample(c)
                &&& self.stranded(top.id as int, layer) ==> self.spanned(c, passed, layer, -1)
                &&& self.spanned(c, insert_asc(passed, top), layer, -1)
            }),
    {
        let top = b.frontier[0];
        let id = top.id;
        let p = b.pop();
        let c = self.expand(p, id as int, layer);
        let more = insert_asc(passed, top);
        self.lemma_pop_settles(b);
        assert(self.spanned(p, passed, layer, id as int)) by {
            assert forall|k: usize| #[trigger]
                p.visited.contains(k) && k != id implies p.queued(k) || self.passed_over(p, k)
                || self.surrounded(p, k, layer) || in_list(passed, k) by {
                assert(b.visited.contains(k));
                assert(b.queued(k) || self.passed_over(b, k) || self.surrounded(b, k, layer)
                    || in_list(passed, k));
                if self.surrounded(b, k, layer) {
                    let near = self.graph.neighbors(k as int, layer);
                    assert forall|i: int| 0 <= i < near.len() implies p.visited.contains(
                        (#[trigger] near[i]) as usize,
                    ) by {
                        assert(b.visited.contains(near[i] as usize));
                    }
                }
            }
        }
        self.lemma_expand_advances(p, id, layer);
        self.lemma_still_followed(p, c, passed, layer, id as int);
        lemma_insert_asc(passed, top);
        assert forall|k: usize| in_list(passed, k) || k == id implies #[trigger] in_list(
            more,
            k,
        ) by {
            let x = if k == id {
                top
            } else {
                let i = choose|i: int| 0 <= i < passed.len() && (#[trigger] passed[i]).id == k;
                assert(passed.contains(passed[i]));
                passed[i]
            };
            assert(more.contains(x));
            let j = choose|j: int| 0 <= j < more.len() && more[j] == x;
            assert(more[j].id == k);
        }
        assert forall|k: usize| #[trigger] c.visited.contains(k) implies c.queued(k)
            || self.passed_over(c, k) || self.surrounded(c, k, layer) || in_list(more, k) by {
            if k != id {
                assert(c.queued(k) || self.passed_over(c, k) || self.surrounded(c, k, layer)
                    || in_list(passed, k));
            }
        }
        if self.stranded(id as int, layer) {
            assert forall|k: usize| #[trigger] c.visited.contains(k) implies c.queued(k)
                || self.passed_over(c, k) || self.surrounded(c, k, layer) || in_list(passed, k) by {
                if k != id {
                    assert(c.queued(k) || self.passed_over(c, k) || self.surrounded(c, k, layer)
                        || in_list(passed, k));
                }
            }
        }
    }

    /// Where going back to a node leaves a walk.
    proof fn lemma_back_spans(self, b: BeamState, passed: Seq<Cand>, layer: int)
        requires
            self.settled(b),
            self.ample(b),
            self.spanned(b, passed, layer, -1),
            passed.len() > 0,
            self.graph.valid(),
            self.graph.nodes.len() <= Hnsw::MAX_NODES,
        ensures
            ({
                let c = self.detour(b, self.graph.neighbors(passed[0].id as int, layer));
                &&& self.ample(c)
                &&& self.spanned(c, passed.drop_first(), layer, -1)
            }),
    {
        let id = passed[0].id;
        let near = self.graph.neighbors(id as int, layer);
        let c = self.detour(b, near);
        let rest = passed.drop_first();
        self.graph.lemma_links_in_range(id as int, layer);
        self.lemma_detour_advances(b, near);
        self.lemma_still_followed(b, c, passed, layer, -1);
        assert(self.surrounded(c, id, layer));
        assert forall|k: usize| #[trigger] c.visited.contains(k) implies c.queued(k)
            || self.passed_over(c, k) || self.surrounded(c, k, layer) || in_list(rest, k) by {
            assert(c.queued(k) || self.passed_over(c, k) || self.surrounded(c, k, layer)
                || in_list(passed, k));
            if in_list(passed, k) && k != id {
                let i = choose|i: int| 0 <= i < passed.len() && (#[trigger] passed[i]).id == k;
                assert(rest[i - 1].id == k);
            }
        }
    }

    /// Where a walk of one layer under a predicate ends, and what it spends.
    proof fn lemma_roam_ends(
        self,
        b: BeamState,
        passed: Seq<Cand>,
        left: nat,
        layer: int,
        rich: bool,
    )
        requires
            self.filtered(),
            self.settled(b),
            self.followed(b, layer, -1),
            rich ==> self.ample(b) && self.spanned(b, passed, layer, -1),
            ascending(passed),
            self.graph.valid(),
            self.graph.nodes.len() <= Hnsw::MAX_NODES,
        ensures
            ({
                let n = self.graph.nodes.len();
                let t = self.roam(b, passed, left, layer);
                &&& self.settled(t.beam)
                &&& b.visited.subset_of(t.beam.visited)
                &&& t.beam.ef == b.ef
                &&& t.left + b.slack(n) >= left
                &&& left >= b.slack(n) ==> self.explored(t.beam, layer)
                &&& left >= b.slack(n) && rich ==> self.sated(t.beam, layer)
            }),
        decreases 2 * left + passed.len(),
    {
        let n = self.graph.nodes.len();
        self.lemma_visited_fit(b);
        if left == 0 {
            if b.slack(n) <= 0 {
                self.lemma_all_visited(b, layer);
            }
        } else if b.frontier.len() > 0 {
            let top = b.frontier[0];
            if self.finished(b) {
                assert(self.explored(b, layer)) by {
                    assert forall|k: usize| #[trigger] b.visited.contains(k) implies self.met(
                        b,
                        k,
                        layer,
                    ) || self.passed_over(b, k) || (b.queued(k) && self.finished(b)) by {
                        assert(b.queued(k) || self.passed_over(b, k) || self.met(b, k, layer));
                    }
                }
            } else {
                self.lemma_step(b, layer);
                if rich {
                    self.lemma_step_spans(b, passed, layer);
                }
                lemma_insert_asc(passed, top);
                let more = if self.stranded(top.id as int, layer) {
                    passed
                } else {
                    insert_asc(passed, top)
                };
                self.lemma_roam_ends(
                    self.expand(b.pop(), top.id as int, layer),
                    more,
                    (left - 1) as nat,
                    layer,
                    rich,
                );
            }
        } else if passed.len() == 0 || b.results.len() >= b.ef || b.detours == 0 {
            assert(self.explored(b, layer)) by {
                assert forall|k: usize| #[trigger] b.visited.contains(k) implies self.met(
                    b,
                    k,
                    layer,
                ) || self.passed_over(b, k) by {
                    assert(b.queued(k) || self.passed_over(b, k) || self.met(b, k, layer));
                    assert(!b.queued(k));
                }
            }
            if rich && b.results.len() < b.ef {
                assert(passed.len() == 0);
                assert forall|k: usize| #[trigger] b.visited.contains(k) implies self.surrounded(
                    b,
                    k,
                    layer,
                ) by {
                    assert(b.queued(k) || self.passed_over(b, k) || self.surrounded(b, k, layer)
                        || in_list(passed, k));
                    assert(!b.queued(k) && !in_list(passed, k));
                }
            }
        } else {
            let near = self.graph.neighbors(passed[0].id as int, layer);
            let c = self.detour(b, near);
            self.graph.lemma_links_in_range(passed[0].id as int, layer);
            self.lemma_detour_advances(b, near);
            self.lemma_still_followed(b, c, passed, layer, -1);
            if rich {
                self.lemma_back_spans(b, passed, layer);
            }
            self.lemma_roam_ends(c, passed.drop_first(), left, layer, rich);
        }
    }
}

impl Graph {
    /// Node `a` names node `b` in its list on layer 0.
    pub open spec fn names(self, a: int, b: int) -> bool {
        &&& 0 <= a < self.nodes.len()
        &&& self.nodes[a].layers.len() > 0
        &&& exists|i: int|
            0 <= i < self.nodes[a].layers[0].len() && #[trigger] self.nodes[a].layers[0][i] == b
    }

    /// A path along the links of layer 0; `live`: one that is on live nodes from
    /// its second node on.
    pub open spec fn is_path(self, path: Seq<int>, live: bool) -> bool {
        &&& path.len() > 0
        &&& forall|i: int| 0 < i < path.len() ==> self.names(path[i - 1], #[trigger] path[i])
        &&& forall|i: int|
            0 < i < path.len() && live ==> !self.nodes[#[trigger] path[i]].deleted
    }

    /// Links of layer 0 lead from node `a` to node `b`; `live`: over live nodes.
    pub open spec fn leads_to(self, a: int, b: int, live: bool) -> bool {
        exists|path: Seq<int>| #[trigger]
            self.is_path(path, live) && path[0] == a && path.last() == b
    }

    /// From every node, links of layer 0 lead to every other; `live`: to every
    /// live one, over live nodes.
    pub open spec fn connected(self, live: bool) -> bool {
        forall|a: int, b: int|
            0 <= a < self.nodes.len() && 0 <= b < self.nodes.len() && (live
                ==> !self.nodes[b].deleted) ==> #[trigger] self.leads_to(a, b, live)
    }
}

impl Walk {
    /// The nodes of a path are considered one after the other.
    proof fn lemma_path_visited(self, b: BeamState, path: Seq<int>, live: bool, upto: int)
        requires
            self.graph.is_path(path, live),
            0 <= upto < path.len(),
            0 <= path[0] < self.graph.nodes.len() <= Hnsw::MAX_NODES,
            self.graph.valid(),
            b.visited.contains(path[0] as usize),
            self.surrounded(b, path[0] as usize, 0),
            forall|k: usize| #[trigger]
                b.visited.contains(k) && k < self.graph.nodes.len() && (live
                    ==> !self.graph.nodes[k as int].deleted) ==> self.surrounded(b, k, 0),
        ensures
            0 <= path[upto] < self.graph.nodes.len(),
            b.visited.contains(path[upto] as usize),
        decreases upto,
    {
        if upto > 0 {
            self.lemma_path_visited(b, path, live, upto - 1);
            let a = path[upto - 1];
            assert(self.graph.names(a, path[upto]));
            assert(self.surrounded(b, a as usize, 0)) by {
                if upto > 1 && live {
                    assert(!self.graph.nodes[path[upto - 1]].deleted);
                }
            }
            let near = self.graph.neighbors(a, 0);
            let i = choose|i: int|
                0 <= i < self.graph.nodes[a].layers[0].len()
                    && #[trigger] self.graph.nodes[a].layers[0][i] == path[upto];
            assert(near[i] == path[upto]);
            self.graph.lemma_links_in_range(a, 0);
            assert(b.visited.contains(self.graph.neighbors(a as usize as int, 0)[i] as usize));
        }
    }

    /// Every answer has had its matching neighbors considered.
    proof fn lemma_answers_met(self, b: BeamState, layer: int, i: int)
        requires
            self.settled(b),
            self.explored(b, layer),
            0 <= i < b.results.len(),
        ensures
            self.met(b, b.results[i].id, layer),
    {
        let k = b.results[i].id;
        assert(b.visited.contains(k));
        assert(b.results[i] == self.score(k as int));
        if !self.met(b, k, layer) {
            assert(b.results.contains(self.score(k as int)));
            assert(b.queued(k) && self.finished(b));
            let j = choose|j: int| 0 <= j < b.frontier.len() && (#[trigger] b.frontier[j]).id == k;
            assert(cand_le(b.frontier[0], b.frontier[j]));
            assert(cand_le(b.results[i], b.results[b.results.len() - 1]));
            lemma_ranks_and_values(b.farthest(), b.frontier[0].dist);
        }
    }

    /// What answers leave out near them is no nearer than the farthest.
    spec fn locally_best(self, found: Seq<Cand>, ef: nat) -> bool {
        forall|i: int, j: int|
            0 <= i < found.len() && 0 <= j < self.graph.neighbors(found[i].id as int, 0).len()
                && self.admissible(self.graph.neighbors(found[i].id as int, 0)[j] as int) ==> {
                let x = self.score(
                    #[trigger] self.graph.neighbors(found[i].id as int, 0)[j] as int,
                );
                found.contains(x) || (found.len() == ef && !f32_lt(x.dist, found.last().dist))
            }
    }

    /// What answers leave out across their bridges is no nearer than the farthest.
    spec fn best_across(self, found: Seq<Cand>, ef: nat) -> bool {
        forall|i: int, j: int|
            0 <= i < found.len() && 0 <= j < self.bridged(
                self.graph.neighbors(found[i].id as int, 0),
                0,
            ).len() && self.admissible(
                self.bridged(self.graph.neighbors(found[i].id as int, 0), 0)[j] as int,
            ) ==> {
                let x = self.score(
                    #[trigger] self.bridged(self.graph.neighbors(found[i].id as int, 0), 0)[j] as int,
                );
                found.contains(x) || (found.len() == ef && !f32_lt(x.dist, found.last().dist))
            }
    }

    /// Nothing that may be returned is missing.
    spec fn has_all(self, found: Seq<Cand>) -> bool {
        forall|id: int|
            0 <= id < self.graph.nodes.len() && self.admissible(id) ==> found.contains(
                #[trigger] self.score(id),
            )
    }

    proof fn lemma_locally_best(self, b: BeamState)
        requires
            self.settled(b),
            self.explored(b, 0),
            self.graph.valid(),
        ensures
            self.locally_best(b.results, b.ef),
            self.filtered() ==> self.best_across(b.results, b.ef),
    {
        let found = b.results;
        if self.filtered() {
            assert forall|i: int, j: int|
                0 <= i < found.len() && 0 <= j < self.bridged(
                    self.graph.neighbors(found[i].id as int, 0),
                    0,
                ).len() && self.admissible(
                    self.bridged(self.graph.neighbors(found[i].id as int, 0), 0)[j] as int,
                ) implies {
                let x = self.score(
                    #[trigger] self.bridged(self.graph.neighbors(found[i].id as int, 0), 0)[j] as int,
                );
                found.contains(x) || (found.len() == b.ef && !f32_lt(x.dist, found.last().dist))
            } by {
                self.lemma_answers_met(b, 0, i);
                assert(self.hopped(b, found[i].id, 0));
                let hops = self.bridged(self.graph.neighbors(found[i].id as int, 0), 0);
                let k = hops[j] as usize;
                assert(b.visited.contains(k));
                assert(self.admissible(k as int));
            }
        }
        assert forall|i: int, j: int|
            0 <= i < found.len() && 0 <= j < self.graph.neighbors(found[i].id as int, 0).len()
                && self.admissible(
                self.graph.neighbors(found[i].id as int, 0)[j] as int,
            ) implies {
            let x = self.score(#[trigger] self.graph.neighbors(found[i].id as int, 0)[j] as int);
            found.contains(x) || (found.len() == b.ef && !f32_lt(x.dist, found.last().dist))
        } by {
            self.lemma_answers_met(b, 0, i);
            self.graph.lemma_links_in_range(found[i].id as int, 0);
            let near = self.graph.neighbors(found[i].id as int, 0);
            let k = near[j] as usize;
            assert(self.matches(near[j] as int));
            assert(b.visited.contains(k));
            assert(self.admissible(k as int));
        }
    }

    /// A walk of layer 0 without a predicate.
    proof fn lemma_layer_complete(self, e: usize, ef: nat)
        requires
            !self.filtered(),
            self.filter is None,
            self.graph.valid(),
            e < self.graph.nodes.len(),
            ef > 0,
        ensures
            self.locally_best(self.layer(seq![e], ef, 0), ef),
            self.graph.connected(true) ==> self.layer(seq![e], ef, 0).len() == ef || self.has_all(
                self.layer(seq![e], ef, 0),
            ),
    {
        let n = self.graph.nodes.len();
        let fresh = BeamState::new(ef, 0);
        let b = self.seed_all(fresh, seq![e]);
        self.lemma_seeded(seq![e], ef, 0);
        self.lemma_primed_settles(b, 0);
        assert(b == self.seed(fresh, e as int)) by {
            assert(seq![e].drop_last() =~= Seq::<usize>::empty());
            assert(self.seed_all(fresh, Seq::<usize>::empty()) == fresh);
        }
        let me = self.score(e as int);
        assert(b.frontier =~= seq![me]);
        assert(!self.finished(b)) by {
            if self.admissible(e as int) {
                assert(b.results =~= seq![me]);
            } else {
                assert(b.results.len() == 0);
            }
            lemma_ranks_and_values(me.dist, me.dist);
        }
        let mid = self.expand(b.pop(), e as int, 0);
        self.lemma_step(b, 0);
        let c = self.drain(b, 0, n);
        assert(c == self.drain(mid, 0, (n - 1) as nat));
        self.lemma_drain_ends(mid, 0, (n - 1) as nat);
        assert(self.explored(c, 0)) by {
            assert forall|k: usize| #[trigger] c.visited.contains(k) implies self.met(c, k, 0)
                || self.passed_over(c, k) || (c.queued(k) && self.finished(c)) by {
                assert(c.queued(k) || self.passed_over(c, k) || self.met(c, k, 0));
            }
        }
        self.lemma_locally_best(c);
        if self.graph.connected(true) && c.results.len() != ef {
            self.lemma_unfilled(c, e);
        }
    }

    /// A walk without a predicate that ends with room for more answers has them
    /// all.
    proof fn lemma_unfilled(self, c: BeamState, e: usize)
        requires
            self.filter is None,
            self.graph.valid(),
            self.graph.connected(true),
            self.settled(c),
            self.explored(c, 0),
            c.results.len() != c.ef,
            e < self.graph.nodes.len(),
            c.visited.contains(e),
            self.met(c, e, 0),
        ensures
            self.has_all(c.results),
    {
        let n = self.graph.nodes.len();
        assert forall|k: usize| self.met(c, k, 0) implies #[trigger] self.surrounded(c, k, 0) by {
            let near = self.graph.neighbors(k as int, 0);
            assert forall|i: int| 0 <= i < near.len() implies c.visited.contains(
                (#[trigger] near[i]) as usize,
            ) by {
                assert(self.matches(near[i] as int));
            }
        }
        assert forall|k: usize| #[trigger]
            c.visited.contains(k) && k < n && !self.graph.nodes[k as int].deleted implies
            self.surrounded(c, k, 0) by {
            assert(self.admissible(k as int));
            assert(c.results.contains(self.score(k as int)));
            let i = choose|i: int| 0 <= i < c.results.len() && c.results[i] == self.score(k as int);
            self.lemma_answers_met(c, 0, i);
            assert(self.met(c, k, 0));
        }
        assert forall|id: int|
            0 <= id < n && self.admissible(id) implies c.results.contains(
            #[trigger] self.score(id),
        ) by {
            assert(self.graph.leads_to(e as int, id, true));
            let path = choose|path: Seq<int>| #[trigger]
                self.graph.is_path(path, true) && path[0] == e && path.last() == id;
            assert(self.surrounded(c, e, 0));
            self.lemma_path_visited(c, path, true, path.len() - 1);
            assert(c.visited.contains(id as usize));
        }
    }

    /// The walk of layer 0 under a predicate.
    proof fn lemma_hunt_complete(self, entry: Seq<usize>, ef: nat, detours: nat, left: nat)
        requires
            self.filtered(),
            self.graph.valid(),
            entry.len() > 0,
            forall|i: int| 0 <= i < entry.len() ==> (#[trigger] entry[i]) < self.graph.nodes.len(),
            ef > 0,
            left >= self.graph.nodes.len(),
        ensures
            ({
                let found = self.hunt(entry, ef, 0, detours, left).beam.results;
                &&& self.locally_best(found, ef)
                &&& self.best_across(found, ef)
                &&& self.graph.connected(false) && detours >= self.graph.nodes.len()
                    ==> found.len() == ef || self.has_all(found)
            }),
    {
        let n = self.graph.nodes.len();
        let b = self.seed_all(BeamState::new(ef, detours), entry);
        self.lemma_seeded(entry, ef, detours);
        self.lemma_primed_settles(b, 0);
        let e = entry[0];
        assert(b.visited.contains(e));
        let rich = detours >= n;
        assert(b.visited.len() > 0) by {
            lemma_len_subset(set![e], b.visited);
        }
        self.lemma_roam_ends(b, Seq::empty(), left, 0, rich);
        let c = self.roam(b, Seq::empty(), left, 0).beam;
        self.lemma_locally_best(c);
        if self.graph.connected(false) && rich && c.results.len() != ef {
            assert forall|id: int|
                0 <= id < n && self.admissible(id) implies c.results.contains(
                #[trigger] self.score(id),
            ) by {
                assert(self.graph.leads_to(e as int, id, false));
                let path = choose|path: Seq<int>| #[trigger]
                    self.graph.is_path(path, false) && path[0] == e && path.last() == id;
                assert(c.visited.contains(e));
                assert(self.surrounded(c, e, 0));
                self.lemma_path_visited(c, path, false, path.len() - 1);
                assert(c.visited.contains(id as usize));
            }
        }
    }

    /// What a filtered descent leaves to spend: each layer costs no more than the
    /// graph has nodes.
    proof fn lemma_foothold_left(
        self,
        nav: usize,
        seed: Seq<usize>,
        top: int,
        detours: nat,
        left: nat,
    )
        requires
            self.filtered(),
            self.graph.valid(),
            nav < self.graph.nodes.len(),
            forall|i: int| 0 <= i < seed.len() ==> (#[trigger] seed[i]) < self.graph.nodes.len(),
            top >= 0,
        ensures
            self.foothold(nav, seed, top, detours, left).left + self.graph.nodes.len() * top
                >= left,
        decreases top,
    {
        let n = self.graph.nodes.len();
        if top >= 1 {
            let near = self.plain().layer(seq![nav], 1, top);
            self.plain().lemma_layer_found(seq![nav], 1, top, anywhere());
            let next = if near.len() > 0 {
                near[0].id
            } else {
                nav
            };
            let entry = seq![next] + seed;
            assert forall|i: int| 0 <= i < entry.len() implies (#[trigger] entry[i]) < n by {
                if i > 0 {
                    assert(entry[i] == seed[i - 1]);
                }
            }
            let b = self.seed_all(BeamState::new(1, detours), entry);
            self.lemma_seeded(entry, 1, detours);
            self.lemma_primed_settles(b, top);
            self.lemma_roam_ends(b, Seq::empty(), left, top, false);
            let t = self.hunt(entry, 1, top, detours, left);
            let found = t.beam.results;
            let more = if found.len() > 0 {
                seq![found[0].id]
            } else {
                seed
            };
            if found.len() > 0 {
                assert(t.beam.visited.contains(found[0].id));
            }
            self.lemma_foothold_left(next, more, top - 1, t.beam.detours, t.left);
            assert(n * (top - 1) + n == n * top) by (nonlinear_arith);
        }
    }

    /// What a search with budget `ef` finds.
    proof fn lemma_found_complete(self, ef: nat)
        requires
            self.graph.valid(),
            self.graph.entry_point is Some,
            ef > 0,
        ensures
            !self.filtered() ==> self.locally_best(self.found(ef), ef),
            !self.filtered() && self.graph.connected(true) ==> self.found(ef).len() == ef
                || self.has_all(self.found(ef)),
            self.filtered() && (self.graph.max_layer + 1) * self.graph.nodes.len() <= 16 * ef && (
            self.graph.max_layer + 1) * self.graph.nodes.len() <= usize::MAX ==> {
                &&& self.locally_best(self.found(ef), ef)
                &&& self.best_across(self.found(ef), ef)
                &&& self.graph.connected(false) && self.graph.nodes.len() <= 4 * ef
                    ==> self.found(ef).len() == ef || self.has_all(self.found(ef))
            },
    {
        let n = self.graph.nodes.len();
        let e = self.graph.entry_point->0;
        let top = self.graph.max_layer as int;
        if self.filtered() {
            let detours = allowance(ef, DETOURS_PER_EF as nat);
            let allowed = allowance(ef, EXPANSIONS_PER_EF as nat);
            self.lemma_foothold_in_range(e, Seq::empty(), top, detours, allowed);
            self.lemma_foothold_left(e, Seq::empty(), top, detours, allowed);
            let f = self.foothold(e, Seq::empty(), top, detours, allowed);
            assert((top + 1) * n == n * top + n) by (nonlinear_arith);
            if (top + 1) * n <= 16 * ef && (top + 1) * n <= usize::MAX {
                assert(f.left >= n);
                self.lemma_hunt_complete(f.entry(), ef, detours, f.left);
            }
        } else {
            let u = self.plain();
            u.lemma_descend_in_range(seq![e], top, 1);
            let entry = u.descend(seq![e], top, 1);
            assert(entry =~= seq![entry[0]]);
            u.lemma_layer_complete(entry[0], ef);
            assert forall|id: int| self.admissible(id) == #[trigger] u.admissible(id) by {}
            assert forall|id: int| self.score(id) == #[trigger] u.score(id) by {}
            let found = self.found(ef);
            assert(found == u.layer(entry, ef, 0));
            assert(self.locally_best(found, ef)) by {
                assert forall|i: int, j: int|
                    0 <= i < found.len() && 0 <= j < self.graph.neighbors(
                        found[i].id as int,
                        0,
                    ).len() && self.admissible(
                        self.graph.neighbors(found[i].id as int, 0)[j] as int,
                    ) implies {
                    let x = self.score(
                        #[trigger] self.graph.neighbors(found[i].id as int, 0)[j] as int,
                    );
                    found.contains(x) || (found.len() == ef && !f32_lt(x.dist, found.last().dist))
                } by {
                    let id = u.graph.neighbors(found[i].id as int, 0)[j] as int;
                    assert(u.admissible(id));
                    assert(u.score(id) == self.score(id));
                }
            }
            if u.has_all(found) {
                assert forall|id: int| 0 <= id < n && self.admissible(id) implies found.contains(
                    #[trigger] self.score(id),
                ) by {
                    assert(u.admissible(id));
                    assert(u.score(id) == self.score(id));
                }
            }
        }
    }
}

/// Node `id` may answer a search under `predicate`: it exists, is live, and its
/// row satisfies the predicate, if there is one.
pub open spec fn eligible(g: Graph, predicate: Option<&Predicate>, id: int) -> bool {
    &&& 0 <= id < g.nodes.len()
    &&& !g.nodes[id].deleted
    &&& predicate matches Some(p) ==> p.holds(g.nodes[id].attrs)
}

/// All nodes that may answer.
pub open spec fn eligible_ids(g: Graph, predicate: Option<&Predicate>) -> Set<int> {
    Set::new(|id: int| eligible(g, predicate, id))
}

/// A predicate that asks for anything.
pub open spec fn selective(predicate: Option<&Predicate>) -> bool {
    predicate matches Some(p) && *p != Predicate::All
}

/// One answer comes before another: nearer, or as near with a smaller id.
pub open spec fn precedes(a: (u32, usize), b: (u32, usize)) -> bool {
    f32_rank(a.0) < f32_rank(b.0) || (f32_rank(a.0) == f32_rank(b.0) && a.1 < b.1)
}

/// Answers are eligible nodes with their distances to the query, nearest first.
pub open spec fn proper<K: Fn(Kernel, &[u32], &[u32]) -> u32>(
    g: Graph,
    kernel: K,
    query: Seq<u32>,
    predicate: Option<&Predicate>,
    found: Seq<(u32, usize)>,
) -> bool {
    &&& forall|i: int|
        0 <= i < found.len() ==> {
            &&& eligible(g, predicate, (#[trigger] found[i]).1 as int)
            &&& found[i].0 == metric_distance(
                kernel,
                g.metric,
                query,
                g.nodes[found[i].1 as int].vector,
            )
        }
    &&& forall|i: int, j: int|
        0 <= i < j < found.len() ==> precedes(#[trigger] found[i], #[trigger] found[j])
}

/// A node is among answers.
pub open spec fn among(found: Seq<(u32, usize)>, id: int) -> bool {
    exists|i: int| 0 <= i < found.len() && (#[trigger] found[i]).1 == id
}

/// The larger of two budgets.
pub open spec fn larger(a: nat, b: nat) -> nat {
    if a < b {
        b
    } else {
        a
    }
}

/// The nodes of candidates, as a set.
proof fn lemma_ids(found: Seq<Cand>, of: Set<int>)
    requires
        distinct(found),
        forall|i: int| 0 <= i < found.len() ==> of.contains((#[trigger] found[i]).id as int),
        of.finite(),
    ensures
        found.len() <= of.len(),
        found.len() == of.len() ==> forall|id: int| #[trigger]
            of.contains(id) ==> exists|i: int|
                0 <= i < found.len() && (#[trigger] found[i]).id == id,
        (forall|id: int| #[trigger]
            of.contains(id) ==> exists|i: int|
                0 <= i < found.len() && (#[trigger] found[i]).id == id) ==> found.len()
            == of.len(),
{
    let ids = Seq::new(found.len(), |i: int| found[i].id as int);
    assert(ids.no_duplicates());
    ids.unique_seq_to_set();
    let all = ids.to_set();
    assert forall|id: int| #[trigger] all.contains(id) implies of.contains(id) by {
        let i = choose|i: int| 0 <= i < ids.len() && ids[i] == id;
        assert(of.contains(found[i].id as int));
    }
    lemma_len_subset(all, of);
    if found.len() == of.len() {
        vstd::set_lib::lemma_subset_equality(all, of);
        assert forall|id: int| #[trigger] of.contains(id) implies exists|i: int|
            0 <= i < found.len() && (#[trigger] found[i]).id == id by {
            assert(all.contains(id));
            let i = choose|i: int| 0 <= i < ids.len() && ids[i] == id;
            assert(found[i].id == id);
        }
    }
    if forall|id: int| #[trigger]
        of.contains(id) ==> exists|i: int| 0 <= i < found.len() && (#[trigger] found[i]).id == id {
        assert forall|id: int| #[trigger] of.contains(id) implies all.contains(id) by {
            let i = choose|i: int| 0 <= i < found.len() && (#[trigger] found[i]).id == id;
            assert(ids[i] == id);
        }
        lemma_len_subset(of, all);
    }
}

/// Every search answers with the first of what the widest search of the same
/// budget answers: asking for fewer nodes, or allowing a budget above what is
/// asked for, never changes which nodes come first.
pub proof fn fewer_answers_are_the_first_ones<K: Fn(Kernel, &[u32], &[u32]) -> u32>(
    h: &Hnsw,
    kernel: K,
    query: Seq<u32>,
    predicate: Option<&Predicate>,
    k: nat,
    ef: nat,
)
    requires
        h.wf(),
        h@.nodes.len() > 0,
        query.len() == h@.dim,
        k > 0,
    ensures
        ({
            let all = search_result(
                h.walk(kernel, query, predicate),
                larger(k, ef),
                larger(k, ef),
            );
            let some = search_result(h.walk(kernel, query, predicate), k, ef);
            &&& all is Ok && some is Ok
            &&& some->Ok_0.len() == (if all->Ok_0.len() < k {
                all->Ok_0.len()
            } else {
                k
            })
            &&& forall|i: int|
                0 <= i < some->Ok_0.len() ==> #[trigger] some->Ok_0[i] == all->Ok_0[i]
        }),
{
    let w = h.walk(kernel, query, predicate);
    answers_are_sound(w, larger(k, ef), larger(k, ef));
    answers_are_sound(w, k, ef);
    assert(w.nearest(larger(k, ef), larger(k, ef)).len() <= larger(k, ef));
}

/// A search finds everything there is to find as long as it has room: in an
/// index whose bottom layer is connected, it answers with `k` nodes, or with all
/// that may answer if those are fewer; and when the budget has room for all that
/// may answer, with exactly the `k` nearest of them.
///
/// Without a selective predicate, the links must lead over live nodes. With one,
/// any links will do, and the two allowances, of 4 detours and 16 expansions per
/// unit of budget, must cover the index.
pub proof fn connected_indexes_are_searched_in_full<K: Fn(Kernel, &[u32], &[u32]) -> u32>(
    h: &Hnsw,
    kernel: K,
    query: Seq<u32>,
    predicate: Option<&Predicate>,
    k: nat,
    ef: nat,
)
    requires
        h.wf(),
        h@.nodes.len() > 0,
        query.len() == h@.dim,
        k > 0,
        h@.connected(!selective(predicate)),
        selective(predicate) ==> {
            &&& h@.nodes.len() <= 4 * larger(k, ef)
            &&& (h@.max_layer + 1) * h@.nodes.len() <= 16 * larger(k, ef)
            &&& (h@.max_layer + 1) * h@.nodes.len() <= usize::MAX
        },
    ensures
        search_result(h.walk(kernel, query, predicate), k, ef) matches Ok(found) && {
            let all = eligible_ids(h@, predicate);
            &&& proper(h@, kernel, query, predicate, found)
            &&& all.finite()
            &&& found.len() == (if all.len() < k {
                all.len()
            } else {
                k
            })
            &&& all.len() <= larger(k, ef) ==> forall|id: int| #[trigger]
                all.contains(id) && !among(found, id) ==> forall|i: int|
                    0 <= i < found.len() ==> precedes(
                        #[trigger] found[i],
                        (
                            metric_distance(kernel, h@.metric, query, h@.nodes[id].vector),
                            id as usize,
                        ),
                    )
        },
{
    let w = h.walk(kernel, query, predicate);
    let n = h@.nodes.len();
    let ef2 = larger(k, ef);
    let all = eligible_ids(h@, predicate);
    assert(w.filtered() == selective(predicate));
    assert forall|id: int| 0 <= id < n implies w.admissible(id) == #[trigger] eligible(
        h@,
        predicate,
        id,
    ) by {}
    assert(all.finite()) by {
        lemma_int_range(0, n as int);
        assert(all.subset_of(set_int_range(0, n as int)));
    }
    w.lemma_found(ef2);
    w.lemma_found_complete(ef2);
    answers_are_sound(w, ef2, ef2);
    answers_are_sound(w, k, ef);
    let wide = w.found(ef2);
    assert(w.nearest(ef2, ef2) == wide);
    let near = w.nearest(k, ef);
    let found = pairs(near);
    lemma_proper(h, kernel, query, predicate, k, ef);
    assert forall|i: int| 0 <= i < wide.len() implies all.contains(
        (#[trigger] wide[i]).id as int,
    ) by {
        let c = w.nearest(ef2, ef2)[i];
        assert(eligible(h@, predicate, c.id as int));
    }
    lemma_ids(wide, all);
    assert(wide.len() == ef2 || w.has_all(wide));
    if w.has_all(wide) {
        assert forall|id: int| #[trigger] all.contains(id) implies exists|i: int|
            0 <= i < wide.len() && (#[trigger] wide[i]).id == id by {
            assert(wide.contains(w.score(id)));
            let i = choose|i: int| 0 <= i < wide.len() && wide[i] == w.score(id);
            assert(wide[i].id == id);
        }
        assert(wide.len() == all.len());
    }
    if all.len() <= ef2 {
        assert(wide.len() == all.len());
        assert forall|id: int| #[trigger]
            all.contains(id) && !among(found, id) implies forall|i: int|
            0 <= i < found.len() ==> precedes(
                #[trigger] found[i],
                (metric_distance(kernel, h@.metric, query, h@.nodes[id].vector), id as usize),
            ) by {
            let j = choose|j: int| 0 <= j < wide.len() && (#[trigger] wide[j]).id == id;
            let d = w.nearest(ef2, ef2)[j];
            if j < near.len() {
                assert(found[j].1 == id);
            }
            assert forall|i: int| 0 <= i < found.len() implies precedes(
                #[trigger] found[i],
                (metric_distance(kernel, h@.metric, query, h@.nodes[id].vector), id as usize),
            ) by {
                assert(near[i] == wide[i]);
                assert(cand_le(wide[i], wide[j]));
                assert(wide[i].id != wide[j].id);
            }
        }
    }
}

/// Answers are proper ones.
proof fn lemma_proper<K: Fn(Kernel, &[u32], &[u32]) -> u32>(
    h: &Hnsw,
    kernel: K,
    query: Seq<u32>,
    predicate: Option<&Predicate>,
    k: nat,
    ef: nat,
)
    requires
        h.wf(),
        h@.nodes.len() > 0,
    ensures
        proper(
            h@,
            kernel,
            query,
            predicate,
            pairs(h.walk(kernel, query, predicate).nearest(k, ef)),
        ),
{
    let w = h.walk(kernel, query, predicate);
    answers_are_sound(w, k, ef);
    let near = w.nearest(k, ef);
    let found = pairs(near);
    assert forall|i: int| 0 <= i < found.len() implies {
        &&& eligible(h@, predicate, (#[trigger] found[i]).1 as int)
        &&& found[i].0 == metric_distance(
            kernel,
            h@.metric,
            query,
            h@.nodes[found[i].1 as int].vector,
        )
    } by {
        let c = w.nearest(k, ef)[i];
        assert(w.matches(c.id as int));
    }
    assert forall|i: int, j: int| 0 <= i < j < found.len() implies precedes(
        #[trigger] found[i],
        #[trigger] found[j],
    ) by {
        assert(cand_le(near[i], near[j]));
        assert(near[i].id != near[j].id);
    }
}

/// Whatever the graph, a search misses nothing next to its answers: every node
/// linked from an answer on the bottom layer that may itself answer is among the
/// answers, unless those are `k` already and it is no nearer than the last.
///
/// Under a selective predicate, 16 expansions per unit of budget must cover the
/// layers.
pub proof fn nothing_next_to_an_answer_is_missed<K: Fn(Kernel, &[u32], &[u32]) -> u32>(
    h: &Hnsw,
    kernel: K,
    query: Seq<u32>,
    predicate: Option<&Predicate>,
    k: nat,
    ef: nat,
)
    requires
        h.wf(),
        h@.nodes.len() > 0,
        query.len() == h@.dim,
        0 < k,
        ef <= k,
        selective(predicate) ==> {
            &&& (h@.max_layer + 1) * h@.nodes.len() <= 16 * k
            &&& (h@.max_layer + 1) * h@.nodes.len() <= usize::MAX
        },
    ensures
        search_result(h.walk(kernel, query, predicate), k, ef) matches Ok(found) && {
            &&& proper(h@, kernel, query, predicate, found)
            &&& forall|i: int, id: int|
                0 <= i < found.len() && #[trigger] h@.names((#[trigger] found[i]).1 as int, id)
                    && eligible(h@, predicate, id) && !among(found, id) ==> {
                    &&& found.len() == k
                    &&& !f32_lt(
                        metric_distance(kernel, h@.metric, query, h@.nodes[id].vector),
                        found.last().0,
                    )
                }
        },
{
    let w = h.walk(kernel, query, predicate);
    assert(w.filtered() == selective(predicate));
    w.lemma_found(k);
    w.lemma_found_complete(k);
    answers_are_sound(w, k, ef);
    let near = w.nearest(k, ef);
    assert(near == w.found(k));
    let found = pairs(near);
    lemma_proper(h, kernel, query, predicate, k, ef);
    assert forall|i: int, id: int|
        0 <= i < found.len() && #[trigger] h@.names((#[trigger] found[i]).1 as int, id)
            && eligible(h@, predicate, id) && !among(found, id) implies {
        &&& found.len() == k
        &&& !f32_lt(
            metric_distance(kernel, h@.metric, query, h@.nodes[id].vector),
            found.last().0,
        )
    } by {
        let a = found[i].1 as int;
        let j = choose|j: int|
            0 <= j < h@.nodes[a].layers[0].len() && #[trigger] h@.nodes[a].layers[0][j] == id;
        assert(w.graph.neighbors(near[i].id as int, 0)[j] == id);
        assert(w.admissible(id));
        let x = w.score(id);
        if near.contains(x) {
            let m = choose|m: int| 0 <= m < near.len() && near[m] == x;
            assert(found[m].1 == id);
        }
    }
}

impl Walk {
    /// A walk of one layer without a predicate, from any entry points: it finds
    /// something if one of them may be returned; and nothing that may be returned
    /// is missing of what it is entered from, or of what is linked from an answer,
    /// unless the answers are full and it is no nearer than the farthest.
    pub(crate) proof fn lemma_layer_settles(self, eps: Seq<usize>, ef: nat, layer: int)
        requires
            self.filter is None,
            self.graph.valid(),
            forall|i: int| 0 <= i < eps.len() ==> (#[trigger] eps[i]) < self.graph.nodes.len(),
            ef > 0,
        ensures
            ({
                let found = self.layer(eps, ef, layer);
                &&& (exists|i: int|
                    0 <= i < eps.len() && !self.graph.nodes[#[trigger] eps[i] as int].deleted)
                    ==> found.len() > 0
                &&& forall|i: int|
                    0 <= i < eps.len() && !self.graph.nodes[eps[i] as int].deleted ==> {
                        let x = self.score(#[trigger] eps[i] as int);
                        found.contains(x) || (found.len() == ef && !f32_lt(
                            x.dist,
                            found.last().dist,
                        ))
                    }
                &&& forall|i: int, j: int|
                    0 <= i < found.len() && 0 <= j < self.graph.neighbors(
                        found[i].id as int,
                        layer,
                    ).len() && !self.graph.nodes[self.graph.neighbors(
                        found[i].id as int,
                        layer,
                    )[j] as int].deleted ==> {
                        let x = self.score(
                            #[trigger] self.graph.neighbors(found[i].id as int, layer)[j] as int,
                        );
                        found.contains(x) || (found.len() == ef && !f32_lt(
                            x.dist,
                            found.last().dist,
                        ))
                    }
            }),
    {
        let n = self.graph.nodes.len();
        let b = self.seed_all(BeamState::new(ef, 0), eps);
        self.lemma_seeded(eps, ef, 0);
        self.lemma_primed_settles(b, layer);
        self.lemma_drain_ends(b, layer, n);
        let c = self.drain(b, layer, n);
        let found = c.results;
        assert(self.explored(c, layer)) by {
            assert forall|k: usize| #[trigger] c.visited.contains(k) implies self.met(c, k, layer)
                || self.passed_over(c, k) || (c.queued(k) && self.finished(c)) by {
                assert(c.queued(k) || self.passed_over(c, k) || self.met(c, k, layer));
            }
        }
        if exists|i: int|
            0 <= i < eps.len() && !self.graph.nodes[#[trigger] eps[i] as int].deleted {
            let i = choose|i: int|
                0 <= i < eps.len() && !self.graph.nodes[#[trigger] eps[i] as int].deleted;
            assert(b.visited.contains(eps[i]));
            assert(c.visited.contains(eps[i]));
            assert(self.admissible(eps[i] as int));
        }
        assert forall|i: int|
            0 <= i < eps.len() && !self.graph.nodes[eps[i] as int].deleted implies {
            let x = self.score(#[trigger] eps[i] as int);
            found.contains(x) || (found.len() == ef && !f32_lt(x.dist, found.last().dist))
        } by {
            assert(b.visited.contains(eps[i]));
            assert(c.visited.contains(eps[i]));
            assert(self.admissible(eps[i] as int));
        }
        assert forall|i: int, j: int|
            0 <= i < found.len() && 0 <= j < self.graph.neighbors(found[i].id as int, layer).len()
                && !self.graph.nodes[self.graph.neighbors(
                found[i].id as int,
                layer,
            )[j] as int].deleted implies {
            let x = self.score(
                #[trigger] self.graph.neighbors(found[i].id as int, layer)[j] as int,
            );
            found.contains(x) || (found.len() == ef && !f32_lt(x.dist, found.last().dist))
        } by {
            self.lemma_answers_met(c, layer, i);
            let near = self.graph.neighbors(found[i].id as int, layer);
            let k = near[j] as usize;
            assert(self.matches(near[j] as int));
            assert(c.visited.contains(k));
            assert(self.admissible(k as int));
        }
    }
}

/// The exhaustive search is what the walk approximates: it answers with the `k`
/// nearest live nodes, or with all of them if they are fewer, nearest first.
pub proof fn exhaustive_answers_are_exact<K: Fn(Kernel, &[u32], &[u32]) -> u32>(
    h: &Hnsw,
    kernel: K,
    query: Seq<u32>,
    k: nat,
)
    requires
        h.wf(),
    ensures
        ({
            let found = pairs(h.walk(kernel, query, None).exact(k));
            let all = eligible_ids(h@, None);
            &&& proper(h@, kernel, query, None, found)
            &&& all.finite()
            &&& found.len() == (if all.len() < k {
                all.len()
            } else {
                k
            })
            &&& forall|id: int| #[trigger]
                all.contains(id) && !among(found, id) ==> forall|i: int|
                    0 <= i < found.len() ==> precedes(
                        #[trigger] found[i],
                        (
                            metric_distance(kernel, h@.metric, query, h@.nodes[id].vector),
                            id as usize,
                        ),
                    )
        }),
{
    let w = h.walk(kernel, query, None);
    let n = h@.nodes.len();
    let near = w.exact(k);
    let found = pairs(near);
    let all = eligible_ids(h@, None);
    exact_answers_are_the_nearest(w, k);
    exact_answers_are_the_nearest(w, n);
    assert(all.finite()) by {
        lemma_int_range(0, n as int);
        assert(all.subset_of(set_int_range(0, n as int)));
    }
    let every = w.exact(n);
    assert forall|i: int| 0 <= i < every.len() implies all.contains(
        (#[trigger] every[i]).id as int,
    ) by {
        assert(eligible(h@, None, every[i].id as int));
    }
    w.lemma_live(n as int);
    super::beam::lemma_sorted(w.live(n as int));
    assert forall|id: int| #[trigger] all.contains(id) implies exists|i: int|
        0 <= i < every.len() && (#[trigger] every[i]).id == id by {
        assert(eligible(h@, None, id));
        assert(!w.graph.nodes[id].deleted);
        assert(w.live(n as int).contains(w.score(id)));
        assert(super::beam::sorted(w.live(n as int)).contains(w.score(id)));
        assert(w.graph.nodes.take(n as int) =~= w.graph.nodes);
        assert(every == super::beam::sorted(w.live(n as int)));
        let i = choose|i: int| 0 <= i < every.len() && every[i] == w.score(id);
        assert(every[i].id == id);
    }
    lemma_ids(every, all);
    assert forall|i: int| 0 <= i < found.len() implies {
        &&& eligible(h@, None, (#[trigger] found[i]).1 as int)
        &&& found[i].0 == metric_distance(
            kernel,
            h@.metric,
            query,
            h@.nodes[found[i].1 as int].vector,
        )
    } by {
        let c = w.exact(k)[i];
        assert(c == w.score(c.id as int));
    }
    assert forall|i: int, j: int| 0 <= i < j < found.len() implies precedes(
        #[trigger] found[i],
        #[trigger] found[j],
    ) by {
        assert(cand_le(near[i], near[j]));
        assert(near[i].id != near[j].id);
    }
    assert forall|id: int| #[trigger]
        all.contains(id) && !among(found, id) implies forall|i: int|
        0 <= i < found.len() ==> precedes(
            #[trigger] found[i],
            (metric_distance(kernel, h@.metric, query, h@.nodes[id].vector), id as usize),
        ) by {
        assert(eligible(h@, None, id));
        assert(!w.graph.nodes[id].deleted);
        if near.contains(w.score(id)) {
            let m = choose|m: int| 0 <= m < near.len() && near[m] == w.score(id);
            assert(found[m].1 == id);
        }
        assert forall|i: int| 0 <= i < found.len() implies precedes(
            #[trigger] found[i],
            (metric_distance(kernel, h@.metric, query, h@.nodes[id].vector), id as usize),
        ) by {
            assert(cand_le(w.exact(k)[i], w.score(id)));
            assert(found[i].1 != id);
        }
    }
}

/// How many of the neighbors of some nodes, all together, satisfy a predicate.
pub open spec fn matches_across(g: Graph, p: Predicate, nodes: Seq<u32>) -> nat
    decreases nodes.len(),
{
    if nodes.len() == 0 {
        0
    } else {
        matches_across(g, p, nodes.drop_last()) + g.nodes[nodes.last() as int].layers[0].filter(
            |x: u32| p.holds(g.nodes[x as int].attrs),
        ).len()
    }
}

impl Walk {
    /// The matches of a list, and the others, are what a filter keeps of it.
    proof fn lemma_matching_filters(self, p: Predicate, ids: Seq<u32>)
        requires
            self.filter == Some(p),
            forall|i: int| 0 <= i < ids.len() ==> (#[trigger] ids[i]) < self.graph.nodes.len(),
        ensures
            self.matching(ids) == ids.filter(
                |x: u32| p.holds(self.graph.nodes[x as int].attrs),
            ),
            self.failing(ids) == ids.filter(
                |x: u32| !p.holds(self.graph.nodes[x as int].attrs),
            ),
        decreases ids.len(),
    {
        reveal(Seq::filter);
        if ids.len() > 0 {
            let head = ids.drop_last();
            assert forall|i: int| 0 <= i < head.len() implies (#[trigger] head[i])
                < self.graph.nodes.len() by {
                assert(head[i] == ids[i]);
            }
            self.lemma_matching_filters(p, head);
            assert(ids[ids.len() - 1] < self.graph.nodes.len());
        }
    }

    /// A match stands among the matches after those before it.
    proof fn lemma_match_at(self, ids: Seq<u32>, j: int)
        requires
            0 <= j < ids.len(),
            self.matches(ids[j] as int),
        ensures
            self.matching(ids.take(j)).len() < self.matching(ids).len(),
            self.matching(ids)[self.matching(ids.take(j)).len() as int] == ids[j],
        decreases ids.len(),
    {
        let head = ids.drop_last();
        if j == ids.len() - 1 {
            assert(ids.take(j) =~= head);
        } else {
            self.lemma_match_at(head, j);
            assert(head.take(j) =~= ids.take(j));
        }
    }

    /// What lies across a bridge stands after what lies across those before it.
    proof fn lemma_across_at(self, bridges: Seq<u32>, layer: int, t: int, q: int)
        requires
            0 <= t < bridges.len(),
            0 <= q < self.matching(self.graph.neighbors(bridges[t] as int, layer)).len(),
        ensures
            self.across(bridges.take(t), layer).len() + q < self.across(bridges, layer).len(),
            self.across(bridges, layer)[self.across(bridges.take(t), layer).len() + q]
                == self.matching(self.graph.neighbors(bridges[t] as int, layer))[q],
        decreases bridges.len(),
    {
        let head = bridges.drop_last();
        if t == bridges.len() - 1 {
            assert(bridges.take(t) =~= head);
        } else {
            self.lemma_across_at(head, layer, t, q);
            assert(head.take(t) =~= bridges.take(t));
        }
    }

    /// What lies across bridges, counted.
    proof fn lemma_across_counted(self, p: Predicate, bridges: Seq<u32>)
        requires
            self.filter == Some(p),
            self.graph.valid(),
            forall|i: int|
                0 <= i < bridges.len() ==> (#[trigger] bridges[i]) < self.graph.nodes.len(),
        ensures
            self.across(bridges, 0).len() == matches_across(self.graph, p, bridges),
        decreases bridges.len(),
    {
        if bridges.len() > 0 {
            let head = bridges.drop_last();
            assert forall|i: int| 0 <= i < head.len() implies (#[trigger] head[i])
                < self.graph.nodes.len() by {
                assert(head[i] == bridges[i]);
            }
            self.lemma_across_counted(p, head);
            let last = bridges[bridges.len() - 1] as int;
            assert(bridges[bridges.len() - 1] < self.graph.nodes.len());
            self.graph.lemma_links_in_range(last, 0);
            assert(self.graph.node_ok(last));
            self.lemma_matching_filters(p, self.graph.neighbors(last, 0));
        }
    }
}

/// Under a selective predicate a search hops over what fails it: from every
/// answer, across its first `m` failing neighbors in turn, to their neighbors that
/// satisfy the predicate, as many as the answer has matching neighbors too few for
/// `m`. Each of those that may answer is among the answers, unless those are `k`
/// already and it is no nearer than the last.
///
/// The match at position `j` of the list of failing neighbor `t` is within reach
/// when the matches before it, and the matching neighbors, are fewer than `m`.
pub proof fn matches_across_failing_neighbors_are_found<K: Fn(Kernel, &[u32], &[u32]) -> u32>(
    h: &Hnsw,
    kernel: K,
    query: Seq<u32>,
    p: &Predicate,
    k: nat,
    ef: nat,
    found: Seq<(u32, usize)>,
    i: int,
    t: int,
    j: int,
)
    requires
        h.wf(),
        h@.nodes.len() > 0,
        query.len() == h@.dim,
        0 < k,
        ef <= k,
        *p != Predicate::All,
        (h@.max_layer + 1) * h@.nodes.len() <= 16 * k,
        (h@.max_layer + 1) * h@.nodes.len() <= usize::MAX,
        search_result(h.walk(kernel, query, Some(p)), k, ef) == Ok::<
            Seq<(u32, usize)>,
            HnswError,
        >(found),
        0 <= i < found.len(),
        ({
            let near = h@.nodes[found[i].1 as int].layers[0];
            let bridges = near.filter(|x: u32| !p.holds(h@.nodes[x as int].attrs));
            let far = h@.nodes[bridges[t] as int].layers[0];
            let ok = |x: u32| p.holds(h@.nodes[x as int].attrs);
            &&& 0 <= t < bridges.len()
            &&& t < h@.m
            &&& 0 <= j < far.len()
            &&& eligible(h@, Some(p), far[j] as int)
            &&& near.filter(ok).len() + matches_across(h@, *p, bridges.take(t)) + far.take(
                j,
            ).filter(ok).len() < h@.m
        }),
    ensures
        ({
            let near = h@.nodes[found[i].1 as int].layers[0];
            let bridges = near.filter(|x: u32| !p.holds(h@.nodes[x as int].attrs));
            let id = h@.nodes[bridges[t] as int].layers[0][j] as int;
            among(found, id) || (found.len() == k && !f32_lt(
                metric_distance(kernel, h@.metric, query, h@.nodes[id].vector),
                found.last().0,
            ))
        }),
{
    let w = h.walk(kernel, query, Some(p));
    let g = w.graph;
    assert(w.filtered());
    w.lemma_found(k);
    w.lemma_found_complete(k);
    answers_are_sound(w, k, ef);
    let list = w.nearest(k, ef);
    assert(list == w.found(k));
    assert(found == pairs(list));
    let r = found[i].1 as int;
    let c = w.nearest(k, ef)[i];
    assert(g.node_ok(r));
    let near = g.neighbors(r, 0);
    g.lemma_links_in_range(r, 0);
    w.lemma_matching_filters(*p, near);
    let bridges = w.failing(near);
    w.lemma_failing_members(near);
    assert forall|x: int| 0 <= x < bridges.len() implies (#[trigger] bridges[x])
        < g.nodes.len() by {
        assert(near.contains(w.failing(near)[x]));
        let y = choose|y: int| 0 <= y < near.len() && near[y] == bridges[x];
        assert(near[y] < g.nodes.len());
    }
    let f = bridges[t] as int;
    assert(bridges[t] < g.nodes.len());
    assert(g.node_ok(f));
    let far = g.neighbors(f, 0);
    g.lemma_links_in_range(f, 0);
    let before = far.take(j);
    assert forall|x: int| 0 <= x < before.len() implies (#[trigger] before[x])
        < g.nodes.len() by {
        assert(before[x] == far[x]);
    }
    w.lemma_matching_filters(*p, before);
    w.lemma_match_at(far, j);
    let used = Walk::first(bridges, g.m as int);
    assert(used[t] == bridges[t]);
    let prefix = bridges.take(t);
    assert(used.take(t) =~= prefix);
    assert forall|x: int| 0 <= x < prefix.len() implies (#[trigger] prefix[x])
        < g.nodes.len() by {
        assert(prefix[x] == bridges[x]);
    }
    w.lemma_across_counted(*p, prefix);
    let q = w.matching(before).len() as int;
    w.lemma_across_at(used, 0, t, q);
    let at = w.across(prefix, 0).len() + q;
    let hops = w.bridged(near, 0);
    assert(w.across(used, 0)[at] == far[j]);
    assert(at < hops.len() && hops[at] == far[j]);
    let id = far[j] as int;
    assert(w.admissible(id));
    assert(list[i].id == r);
    let x = w.score(w.bridged(g.neighbors(list[i].id as int, 0), 0)[at] as int);
    assert(list.contains(x) || (list.len() == k && !f32_lt(x.dist, list.last().dist)));
    if list.contains(x) {
        let m = choose|m: int| 0 <= m < list.len() && list[m] == x;
        assert(found[m].1 == id);
    }
}

impl Walk {
    /// Every distance to the query is a number.
    pub open spec fn numbered(self) -> bool {
        forall|id: int|
            0 <= id < self.graph.nodes.len() ==> !f32_is_nan(
                (self.dist)(self.query, (#[trigger] self.graph.nodes[id]).vector),
            )
    }

    /// A node no farther than `x` that may be returned leads the answers.
    spec fn led(self, found: Seq<Cand>, x: usize) -> bool {
        &&& found.len() > 0
        &&& found[0].id < self.graph.nodes.len()
        &&& found[0] == self.score(found[0].id as int)
        &&& self.admissible(found[0].id as int)
        &&& f32_value(found[0].dist) <= f32_value(self.score(x as int).dist)
    }

    /// A returnable node that was considered leads the answers, unless a nearer one
    /// does.
    proof fn lemma_considered_leads(self, b: BeamState, x: usize)
        requires
            self.settled(b),
            self.numbered(),
            b.visited.contains(x),
            x < self.graph.nodes.len(),
            self.admissible(x as int),
        ensures
            self.led(b.results, x),
    {
        let s = self.score(x as int);
        assert(!f32_is_nan((self.dist)(self.query, self.graph.nodes[x as int].vector)));
        let found = b.results;
        assert(found.len() > 0);
        let (first, last) = (found[0], found[found.len() - 1]);
        assert(first == self.score(first.id as int) && last == self.score(last.id as int));
        assert(b.visited.contains(first.id) && b.visited.contains(last.id));
        assert(!f32_is_nan((self.dist)(self.query, self.graph.nodes[first.id as int].vector)));
        assert(!f32_is_nan((self.dist)(self.query, self.graph.nodes[last.id as int].vector)));
        if found.contains(s) {
            let j = choose|j: int| 0 <= j < found.len() && found[j] == s;
            assert(cand_le(found[0], found[j]));
            lemma_ranks_and_values(first.dist, s.dist);
        } else {
            assert(cand_le(found[0], found[found.len() - 1]));
            lemma_ranks_and_values(first.dist, last.dist);
        }
    }

    /// A walk that is entered from a returnable node answers with it, or nearer.
    proof fn lemma_entries_lead(
        self,
        entry: Seq<usize>,
        ef: nat,
        layer: int,
        detours: nat,
        left: nat,
        i: int,
    )
        requires
            self.filtered(),
            self.graph.valid(),
            self.numbered(),
            ef > 0,
            forall|j: int| 0 <= j < entry.len() ==> (#[trigger] entry[j]) < self.graph.nodes.len(),
            0 <= i < entry.len(),
            self.admissible(entry[i] as int),
        ensures
            self.led(self.hunt(entry, ef, layer, detours, left).beam.results, entry[i]),
    {
        let b = self.seed_all(BeamState::new(ef, detours), entry);
        self.lemma_seeded(entry, ef, detours);
        self.lemma_primed_settles(b, layer);
        self.lemma_roam_ends(b, Seq::empty(), left, layer, false);
        self.lemma_considered_leads(
            self.hunt(entry, ef, layer, detours, left).beam,
            entry[i],
        );
    }

    /// A walk that may expand its only entry point answers with a match linked from
    /// there, or nearer.
    proof fn lemma_links_lead(
        self,
        a: usize,
        layer: int,
        detours: nat,
        left: nat,
        j: int,
    )
        requires
            self.filtered(),
            self.graph.valid(),
            self.numbered(),
            left > 0,
            a < self.graph.nodes.len(),
            0 <= j < self.graph.neighbors(a as int, layer).len(),
            self.admissible(self.graph.neighbors(a as int, layer)[j] as int),
        ensures
            self.led(
                self.hunt(seq![a], 1, layer, detours, left).beam.results,
                self.graph.neighbors(a as int, layer)[j] as usize,
            ),
    {
        let entry = seq![a];
        let fresh = BeamState::new(1, detours);
        let b = self.seed_all(fresh, entry);
        let y = self.graph.neighbors(a as int, layer)[j] as usize;
        self.graph.lemma_links_in_range(a as int, layer);
        self.lemma_seeded(entry, 1, detours);
        self.lemma_primed_settles(b, layer);
        assert(entry.drop_last() =~= Seq::<usize>::empty());
        assert(self.seed_all(fresh, entry.drop_last()) == fresh);
        assert(b.frontier =~= seq![self.score(a as int)]);
        if self.admissible(a as int) {
            assert(b.results =~= seq![self.score(a as int)]);
        }
        assert(!self.finished(b));
        self.lemma_step(b, layer);
        let c = self.expand(b.pop(), a as int, layer);
        assert(self.met(c, a, layer));
        assert(c.visited.contains(y));
        let more = if self.stranded(a as int, layer) {
            Seq::empty()
        } else {
            insert_asc(Seq::empty(), self.score(a as int))
        };
        self.lemma_roam_ends(c, more, (left - 1) as nat, layer, false);
        self.lemma_considered_leads(self.roam(c, more, (left - 1) as nat, layer).beam, y);
    }

    /// A filtered descent keeps hold of a match: what it ends with is no farther.
    proof fn lemma_seeds_last(
        self,
        nav: usize,
        seed: usize,
        top: int,
        detours: nat,
        left: nat,
    )
        requires
            self.filtered(),
            self.graph.valid(),
            self.numbered(),
            nav < self.graph.nodes.len(),
            seed < self.graph.nodes.len(),
            self.admissible(seed as int),
        ensures
            ({
                let f = self.foothold(nav, seq![seed], top, detours, left);
                &&& f.nav < self.graph.nodes.len()
                &&& f.seed.len() == 1
                &&& f.seed[0] < self.graph.nodes.len()
                &&& self.admissible(f.seed[0] as int)
                &&& f32_value(self.score(f.seed[0] as int).dist) <= f32_value(
                    self.score(seed as int).dist,
                )
            }),
        decreases top,
    {
        if top >= 1 {
            let near = self.plain().layer(seq![nav], 1, top);
            self.plain().lemma_layer_found(seq![nav], 1, top, anywhere());
            let next = if near.len() > 0 {
                near[0].id
            } else {
                nav
            };
            let entry = seq![next] + seq![seed];
            assert(entry[1] == seed);
            self.lemma_entries_lead(entry, 1, top, detours, left, 1);
            let t = self.hunt(entry, 1, top, detours, left);
            self.lemma_seeds_last(
                next,
                t.beam.results[0].id,
                top - 1,
                t.beam.detours,
                t.left,
            );
        }
    }
}

/// A match met on the way down is not lost, even where the bottom layer does not
/// lead to it: a live match that is linked, on the top layer, from where navigation
/// without the predicate arrives there makes for an answer that is no farther.
pub proof fn matches_met_on_the_way_down_are_not_lost(
    w: Walk,
    k: nat,
    ef: nat,
    arrival: usize,
    j: int,
)
    requires
        w.graph.valid(),
        w.graph.entry_point is Some,
        w.graph.max_layer >= 1,
        w.query.len() == w.graph.dim,
        w.numbered(),
        w.filter is Some && w.filter != Some(Predicate::All),
        k > 0,
        ({
            let top = w.graph.max_layer as int;
            let near = w.plain().layer(seq![w.graph.entry_point->0], 1, top);
            arrival == (if near.len() > 0 {
                near[0].id
            } else {
                w.graph.entry_point->0
            })
        }),
        0 <= j < w.graph.neighbors(arrival as int, w.graph.max_layer as int).len(),
        ({
            let y = w.graph.neighbors(arrival as int, w.graph.max_layer as int)[j] as int;
            &&& !w.graph.nodes[y].deleted
            &&& (w.filter->0).holds(w.graph.nodes[y].attrs)
        }),
    ensures
        search_result(w, k, ef) matches Ok(found) && found.len() > 0 && f32_value(found[0].0)
            <= f32_value(
            (w.dist)(
                w.query,
                w.graph.nodes[w.graph.neighbors(
                    arrival as int,
                    w.graph.max_layer as int,
                )[j] as int].vector,
            ),
        ),
{
    let g = w.graph;
    let top = g.max_layer as int;
    let e = g.entry_point->0;
    let budget = if ef < k {
        k
    } else {
        ef
    };
    let detours = allowance(budget, DETOURS_PER_EF as nat);
    let allowed = allowance(budget, EXPANSIONS_PER_EF as nat);
    let y = g.neighbors(arrival as int, top)[j] as int;
    assert(e < g.nodes.len());
    w.plain().lemma_layer_found(seq![e], 1, top, anywhere());
    g.lemma_links_in_range(arrival as int, top);
    assert(g.attrs(y) == g.nodes[y].attrs);
    assert(w.admissible(y));
    assert(allowed > 0);
    w.lemma_links_lead(arrival, top, detours, allowed, j);
    let t = w.hunt(seq![arrival], 1, top, detours, allowed);
    let seed = t.beam.results[0].id;
    assert(seq![arrival] + Seq::<usize>::empty() =~= seq![arrival]);
    w.lemma_seeds_last(arrival, seed, top - 1, t.beam.detours, t.left);
    let f = w.foothold(e, Seq::empty(), top, detours, allowed);
    assert(f == w.foothold(arrival, seq![seed], top - 1, t.beam.detours, t.left));
    let entry = f.entry();
    assert(entry[1] == f.seed[0]);
    w.lemma_entries_lead(entry, budget, 0, detours, f.left, 1);
    assert(w.found(budget) == w.hunt(entry, budget, 0, detours, f.left).beam.results);
}

} // verus!
