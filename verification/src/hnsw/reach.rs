//! How far a filtered search goes.
//!
//! The allowance on expansions is what ends a filtered walk that does not fill its
//! budget. What that means for its answers is stated here in terms of links.

use super::beam::{ascending, insert_asc, lemma_insert_asc, BeamState, Cand};
use super::filtered::{allowance, DETOURS_PER_EF, EXPANSIONS_PER_EF};
use super::graph::Graph;
use super::search::{search_result, Walk};
use crate::filter::Predicate;
use vstd::prelude::*;

verus! {

impl Graph {
    /// At most so many links of layer 0 lead from node `a` to node `b`.
    pub open spec fn within(self, a: int, b: int, links: nat) -> bool
        decreases links,
    {
        a == b || (links > 0 && exists|c: int|
            self.within(a, c, (links - 1) as nat) && #[trigger] self.names(c, b))
    }

    proof fn lemma_within_more(self, a: int, b: int, links: nat, more: nat)
        requires
            self.within(a, b, links),
            links <= more,
        ensures
            self.within(a, b, more),
        decreases links,
    {
        if a != b {
            let c = choose|c: int|
                self.within(a, c, (links - 1) as nat) && #[trigger] self.names(c, b);
            self.lemma_within_more(a, c, (links - 1) as nat, (more - 1) as nat);
        }
    }

    /// One link farther.
    proof fn lemma_within_next(self, a: int, x: int, i: int, links: nat)
        requires
            self.within(a, x, links),
            0 <= x < self.nodes.len(),
            0 <= i < self.neighbors(x, 0).len(),
        ensures
            self.within(a, self.neighbors(x, 0)[i] as int, links + 1),
    {
        let y = self.neighbors(x, 0)[i] as int;
        assert(self.nodes[x].layers[0][i] == y);
        assert(self.names(x, y));
        assert(self.within(a, x, (links + 1 - 1) as nat));
    }

    /// The nodes within so many links of node `a`.
    spec fn ball(self, a: int, links: nat) -> spec_fn(int) -> bool {
        |x: int| self.within(a, x, links)
    }
}

impl Walk {
    /// A beam within a ball is within a larger one.
    proof fn lemma_kept_wider(self, b: BeamState, a: int, links: nat, more: nat)
        requires
            self.kept(b, self.graph.ball(a, links)),
            links <= more,
        ensures
            self.kept(b, self.graph.ball(a, more)),
    {
        let g = self.graph;
        assert forall|i: int| 0 <= i < b.results.len() implies {
            &&& #[trigger] b.results[i] == self.score(b.results[i].id as int)
            &&& self.admissible(b.results[i].id as int)
            &&& g.ball(a, more)(b.results[i].id as int)
        } by {
            assert(g.ball(a, links)(b.results[i].id as int));
            g.lemma_within_more(a, b.results[i].id as int, links, more);
        }
        assert forall|i: int| 0 <= i < b.frontier.len() implies g.ball(a, more)(
            (#[trigger] b.frontier[i]).id as int,
        ) by {
            assert(g.ball(a, links)(b.frontier[i].id as int));
            g.lemma_within_more(a, b.frontier[i].id as int, links, more);
        }
    }

    /// What lies across bridges is one link farther.
    proof fn lemma_across_near(self, bridges: Seq<u32>, a: int, links: nat)
        requires
            self.graph.valid(),
            forall|i: int|
                0 <= i < bridges.len() ==> (#[trigger] bridges[i]) < self.graph.nodes.len()
                    && self.graph.within(a, bridges[i] as int, links),
        ensures
            forall|i: int|
                0 <= i < self.across(bridges, 0).len() ==> (#[trigger] self.across(bridges, 0)[i])
                    < self.graph.nodes.len() && self.graph.within(
                    a,
                    self.across(bridges, 0)[i] as int,
                    links + 1,
                ),
        decreases bridges.len(),
    {
        if bridges.len() > 0 {
            let head = bridges.drop_last();
            assert forall|i: int| 0 <= i < head.len() implies (#[trigger] head[i])
                < self.graph.nodes.len() && self.graph.within(a, head[i] as int, links) by {
                assert(head[i] == bridges[i]);
            }
            self.lemma_across_near(head, a, links);
            let x = bridges[bridges.len() - 1] as int;
            let far = self.graph.neighbors(x, 0);
            self.graph.lemma_links_in_range(x, 0);
            self.lemma_matching_members(far);
            let all = self.across(bridges, 0);
            let before = self.across(head, 0);
            assert forall|i: int| 0 <= i < all.len() implies (#[trigger] all[i])
                < self.graph.nodes.len() && self.graph.within(a, all[i] as int, links + 1) by {
                if i < before.len() {
                    assert(all[i] == before[i]);
                } else {
                    let m = self.matching(far)[i - before.len()];
                    assert(all[i] == m);
                    let k = choose|k: int| 0 <= k < far.len() && far[k] == m;
                    assert(far[k] < self.graph.nodes.len());
                    self.graph.lemma_within_next(a, x, k, links);
                }
            }
        }
    }

    /// An expansion considers nodes at most two links farther.
    proof fn lemma_expand_near(self, b: BeamState, id: int, a: int, links: nat)
        requires
            self.filtered(),
            self.graph.valid(),
            self.kept(b, self.graph.ball(a, links)),
            0 <= id < self.graph.nodes.len(),
            self.graph.within(a, id, links),
        ensures
            self.kept(self.expand(b, id, 0), self.graph.ball(a, links + 2)),
    {
        let g = self.graph;
        let p = g.ball(a, links + 2);
        let near = g.neighbors(id, 0);
        g.lemma_links_in_range(id, 0);
        self.lemma_kept_wider(b, a, links, links + 2);
        assert forall|i: int| 0 <= i < near.len() implies (#[trigger] near[i]) < g.nodes.len()
            && g.within(a, near[i] as int, links + 1) && p(near[i] as int) by {
            g.lemma_within_next(a, id, i, links);
            g.lemma_within_more(a, near[i] as int, links + 1, links + 2);
        }
        let direct = self.matching(near);
        self.lemma_matching_members(near);
        assert forall|i: int| 0 <= i < direct.len() implies (#[trigger] direct[i]) < g.nodes.len()
            && p(direct[i] as int) by {
            let k = choose|k: int| 0 <= k < near.len() && near[k] == self.matching(near)[i];
            assert(p(near[k] as int));
        }
        self.lemma_visit_all_kept(b, direct, p);
        let failing = self.failing(near);
        self.lemma_failing_members(near);
        let bridges = Self::first(failing, g.m as int);
        assert forall|i: int| 0 <= i < bridges.len() implies (#[trigger] bridges[i])
            < g.nodes.len() && g.within(a, bridges[i] as int, links + 1) by {
            assert(bridges[i] == failing[i]);
            let k = choose|k: int| 0 <= k < near.len() && near[k] == self.failing(near)[i];
            assert(near[k] < g.nodes.len());
        }
        self.lemma_across_near(bridges, a, links + 1);
        let hops = self.bridged(near, 0);
        assert forall|i: int| 0 <= i < hops.len() implies (#[trigger] hops[i]) < g.nodes.len()
            && p(hops[i] as int) by {
            assert(hops[i] == self.across(bridges, 0)[i]);
        }
        let mid = self.visit_all(b, direct);
        self.lemma_visit_all_kept(mid, hops, p);
        self.lemma_detour_kept(self.visit_all(mid, hops), near, p);
    }

    /// A walk with `left` expansions ends within twice as many links more.
    proof fn lemma_roam_near(self, b: BeamState, passed: Seq<Cand>, left: nat, a: int, links: nat)
        requires
            self.filtered(),
            self.graph.valid(),
            self.kept(b, self.graph.ball(a, links + 1)),
            ascending(passed),
            forall|i: int|
                0 <= i < passed.len() ==> (#[trigger] passed[i]).id < self.graph.nodes.len()
                    && self.graph.within(a, passed[i].id as int, links),
        ensures
            self.kept(
                self.roam(b, passed, left, 0).beam,
                self.graph.ball(a, links + 2 * left + 1),
            ),
        decreases 2 * left + passed.len(),
    {
        let g = self.graph;
        let bound = (links + 2 * left + 1) as nat;
        self.lemma_kept_wider(b, a, links + 1, bound);
        if left == 0 {
        } else if b.frontier.len() > 0 {
            if !self.finished(b) {
                let c = b.frontier[0];
                let id = c.id as int;
                self.lemma_pop_kept(b, g.ball(a, links + 1));
                assert(b.visited.contains(c.id));
                self.lemma_expand_near(b.pop(), id, a, links + 1);
                lemma_insert_asc(passed, c);
                let more = if self.stranded(id, 0) {
                    passed
                } else {
                    insert_asc(passed, c)
                };
                assert forall|i: int| 0 <= i < more.len() implies (#[trigger] more[i]).id
                    < g.nodes.len() && g.within(a, more[i].id as int, links + 2) by {
                    if more[i] == c {
                        g.lemma_within_more(a, id, links + 1, links + 2);
                    } else {
                        assert(more.contains(more[i]));
                        assert(passed.contains(more[i]));
                        let k = choose|k: int| 0 <= k < passed.len() && passed[k] == more[i];
                        g.lemma_within_more(a, passed[k].id as int, links, links + 2);
                    }
                }
                self.lemma_roam_near(
                    self.expand(b.pop(), id, 0),
                    more,
                    (left - 1) as nat,
                    a,
                    links + 2,
                );
            }
        } else if !(passed.len() == 0 || b.results.len() >= b.ef || b.detours == 0) {
            let x = passed[0].id as int;
            let near = g.neighbors(x, 0);
            g.lemma_links_in_range(x, 0);
            let p = g.ball(a, links + 1);
            assert forall|i: int| 0 <= i < near.len() implies (#[trigger] near[i]) < g.nodes.len()
                && p(near[i] as int) by {
                g.lemma_within_next(a, x, i, links);
            }
            self.lemma_detour_kept(b, near, p);
            let rest = passed.drop_first();
            assert forall|i: int| 0 <= i < rest.len() implies (#[trigger] rest[i]).id
                < g.nodes.len() && g.within(a, rest[i].id as int, links) by {
                assert(rest[i] == passed[i + 1]);
            }
            assert(ascending(rest)) by {
                assert forall|i: int, j: int| 0 <= i <= j < rest.len() implies super::beam::cand_le(
                    #[trigger] rest[i],
                    #[trigger] rest[j],
                ) by {
                    assert(rest[i] == passed[i + 1] && rest[j] == passed[j + 1]);
                }
            }
            self.lemma_roam_near(self.detour(b, near), rest, left, a, links);
        }
    }
}

/// A filtered search does not go on without end: with 16 expansions per unit of
/// budget, each of which reaches two links farther at most, no answer lies farther
/// from the entry point than 32 links per unit, and one. Stated of an index with
/// one layer.
pub proof fn filtered_searches_end_near_where_they_start(w: Walk, k: nat, ef: nat)
    requires
        w.graph.valid(),
        w.graph.entry_point is Some,
        w.graph.max_layer == 0,
        w.filter is Some && w.filter != Some(Predicate::All),
        w.query.len() == w.graph.dim,
        k > 0,
    ensures
        search_result(w, k, ef) matches Ok(found) && forall|i: int|
            0 <= i < found.len() ==> w.graph.within(
                w.graph.entry_point->0 as int,
                (#[trigger] found[i]).1 as int,
                32 * (if ef < k {
                    k
                } else {
                    ef
                }) + 1,
            ),
{
    let g = w.graph;
    let e = g.entry_point->0;
    let budget = if ef < k {
        k
    } else {
        ef
    };
    let detours = allowance(budget, DETOURS_PER_EF as nat);
    let allowed = allowance(budget, EXPANSIONS_PER_EF as nat);
    let fresh = BeamState::new(budget, detours);
    let p = g.ball(e as int, 1);
    assert(e < g.nodes.len());
    assert(g.within(e as int, e as int, 1));
    assert(w.kept(fresh, p));
    let f = w.foothold(e, Seq::empty(), 0, detours, allowed);
    assert(f.entry() =~= seq![e]);
    w.lemma_seed_all_kept(fresh, seq![e], p);
    let b = w.seed_all(fresh, seq![e]);
    w.lemma_roam_near(b, Seq::empty(), allowed, e as int, 0);
    let found = w.found(budget);
    assert(found == w.roam(b, Seq::empty(), allowed, 0).beam.results);
    assert forall|i: int| 0 <= i < found.len() implies g.within(
        e as int,
        (#[trigger] found[i]).id as int,
        32 * budget + 1,
    ) by {
        let c = w.roam(b, Seq::empty(), allowed, 0).beam.results[i];
        assert(g.ball(e as int, 2 * allowed + 1)(c.id as int));
        g.lemma_within_more(e as int, c.id as int, 2 * allowed + 1, 32 * budget + 1);
    }
    let near = w.nearest(k, ef);
    assert forall|i: int| 0 <= i < near.len() implies near[i] == #[trigger] found[i] by {}
    let out = super::search::pairs(near);
    assert forall|i: int| 0 <= i < out.len() implies g.within(
        e as int,
        (#[trigger] out[i]).1 as int,
        32 * budget + 1,
    ) by {
        assert(out[i].1 == found[i].id);
    }
}

} // verus!
