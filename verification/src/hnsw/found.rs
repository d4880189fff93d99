//! What holds of everything a search finds.
//!
//! A search only ever scores nodes it reaches from its entry points, and only
//! records those that may be returned. The lemmas here carry that through every
//! step of a walk; the laws at the end state it of the answers.

use super::beam::{
    ascending, cand_le, insert_asc, lemma_insert_asc, lemma_sorted, sorted, BeamState, Cand,
};
use super::filtered::{allowance, DETOURS_PER_EF, EXPANSIONS_PER_EF};
use super::graph::{deleted_in, Graph, Hnsw};
use super::search::{pairs, search_result, Walk};
use vstd::prelude::*;

verus! {

impl Graph {
    /// Following a link on `layer` never leaves `p`.
    pub open spec fn closed_under_links(self, p: spec_fn(int) -> bool, layer: int) -> bool {
        forall|id: int, i: int|
            p(id) && 0 <= i < self.neighbors(id, layer).len() ==> p(
                #[trigger] self.neighbors(id, layer)[i] as int,
            )
    }

    /// Every link leads to a node.
    pub proof fn lemma_links_in_range(self, id: int, layer: int)
        requires
            self.valid(),
        ensures
            forall|i: int|
                0 <= i < self.neighbors(id, layer).len() ==> (#[trigger] self.neighbors(
                    id,
                    layer,
                )[i]) < self.nodes.len(),
    {
        if 0 <= id < self.nodes.len() {
            assert(self.node_ok(id));
            if 0 <= layer < self.nodes[id].layers.len() {
                assert(self.list_ok(layer, self.nodes[id].layers[layer]));
            }
        }
    }
}

/// No two candidates name the same node.
pub open spec fn distinct(s: Seq<Cand>) -> bool {
    forall|i: int, j: int|
        0 <= i < s.len() && 0 <= j < s.len() && i != j ==> (#[trigger] s[i]).id != (
        #[trigger] s[j]).id
}

/// A new node put in its place leaves no two candidates on one node.
proof fn lemma_insert_distinct(s: Seq<Cand>, c: Cand)
    requires
        distinct(s),
        forall|i: int| 0 <= i < s.len() ==> (#[trigger] s[i]).id != c.id,
    ensures
        distinct(insert_asc(s, c)),
        forall|i: int|
            0 <= i < insert_asc(s, c).len() ==> #[trigger] insert_asc(s, c)[i] == c || s.contains(
                insert_asc(s, c)[i],
            ),
    decreases s.len(),
{
    let t = insert_asc(s, c);
    if s.len() == 0 || super::beam::cand_le(s.last(), c) {
        assert forall|i: int| 0 <= i < t.len() implies #[trigger] t[i] == c || s.contains(
            t[i],
        ) by {
            if i < s.len() {
                assert(t[i] == s[i]);
            }
        }
    } else {
        let head = s.drop_last();
        lemma_insert_distinct(head, c);
        let u = insert_asc(head, c);
        assert forall|i: int| 0 <= i < t.len() implies #[trigger] t[i] == c || s.contains(
            t[i],
        ) by {
            if i < u.len() {
                assert(t[i] == u[i]);
                if u[i] != c {
                    let k = choose|k: int| 0 <= k < head.len() && head[k] == u[i];
                    assert(s[k] == t[i]);
                }
            } else {
                assert(t[i] == s[s.len() - 1]);
            }
        }
        assert forall|i: int, j: int|
            0 <= i < t.len() && 0 <= j < t.len() && i != j implies (#[trigger] t[i]).id != (
        #[trigger] t[j]).id by {
            if i < u.len() && j < u.len() {
                assert(u[i].id != u[j].id);
            } else {
                let k = if i < u.len() {
                    i
                } else {
                    j
                };
                assert(u[k] == c || head.contains(u[k]));
                if u[k] != c {
                    let x = choose|x: int| 0 <= x < head.len() && head[x] == u[k];
                    assert(s[x].id != s[s.len() - 1].id);
                } else {
                    assert(s[s.len() - 1].id != c.id);
                }
            }
        }
    }
}

impl Walk {
    /// What holds of a beam at every point of a walk that stays within `p`.
    pub open spec fn kept(self, b: BeamState, p: spec_fn(int) -> bool) -> bool {
        &&& b.ok(self.graph.nodes.len())
        &&& b.results.len() <= b.ef
        &&& distinct(b.results)
        &&& forall|i: int|
            0 <= i < b.results.len() ==> {
                &&& #[trigger] b.results[i] == self.score(b.results[i].id as int)
                &&& self.admissible(b.results[i].id as int)
                &&& p(b.results[i].id as int)
            }
        &&& forall|i: int| 0 <= i < b.frontier.len() ==> p((#[trigger] b.frontier[i]).id as int)
    }

    /// Scoring a new node within `p` keeps the beam as it should be.
    pub(crate) proof fn lemma_push_kept(self, b: BeamState, id: int, p: spec_fn(int) -> bool)
        requires
            self.kept(b, p),
            0 <= id < self.graph.nodes.len(),
            self.graph.nodes.len() <= Hnsw::MAX_NODES,
            p(id),
            !b.visited.contains(id as usize),
        ensures
            self.kept(b.see(id as usize), p),
            self.kept(b.see(id as usize).push(self.score(id), self.admissible(id)), p),
    {
        let n = self.graph.nodes.len();
        let seen = b.see(id as usize);
        let c = self.score(id);
        b.lemma_see(id as usize, n);
        seen.lemma_push(c, self.admissible(id), n);
        let after = seen.push(c, self.admissible(id));
        assert forall|i: int| 0 <= i < b.results.len() implies (#[trigger] b.results[i]).id
            != c.id by {
            assert(b.visited.contains(b.results[i].id));
        }
        lemma_insert_distinct(b.results, c);
        lemma_insert_asc(b.frontier, c);
        lemma_insert_asc(b.results, c);
        let more = insert_asc(b.results, c);
        assert forall|i: int| 0 <= i < after.results.len() implies {
            &&& #[trigger] after.results[i] == self.score(after.results[i].id as int)
            &&& self.admissible(after.results[i].id as int)
            &&& p(after.results[i].id as int)
        } by {
            if self.admissible(id) {
                assert(after.results[i] == more[i]);
                if more[i] != c {
                    let k = choose|k: int| 0 <= k < b.results.len() && b.results[k] == more[i];
                    assert(b.results[k] == self.score(b.results[k].id as int));
                }
            } else {
                assert(after.results[i] == b.results[i]);
            }
        }
        assert forall|i: int, j: int|
            0 <= i < after.results.len() && 0 <= j < after.results.len() && i != j implies (
        #[trigger] after.results[i]).id != (#[trigger] after.results[j]).id by {
            if self.admissible(id) {
                assert(more[i].id != more[j].id);
            } else {
                assert(b.results[i].id != b.results[j].id);
            }
        }
        assert forall|i: int| 0 <= i < after.frontier.len() implies p(
            (#[trigger] after.frontier[i]).id as int,
        ) by {
            assert(insert_asc(b.frontier, c).contains(after.frontier[i]));
            if after.frontier[i] != c {
                let k = choose|k: int| 0 <= k < b.frontier.len() && b.frontier[k]
                    == after.frontier[i];
                assert(p(b.frontier[k].id as int));
            }
        }
    }

    proof fn lemma_visit_kept(self, b: BeamState, id: int, p: spec_fn(int) -> bool)
        requires
            self.kept(b, p),
            0 <= id < self.graph.nodes.len(),
            self.graph.nodes.len() <= Hnsw::MAX_NODES,
            p(id),
        ensures
            self.kept(self.visit(b, id), p),
    {
        if b.visited.contains(id as usize) {
            assert(b.see(id as usize) =~= b);
        } else {
            self.lemma_push_kept(b, id, p);
        }
    }

    pub(crate) proof fn lemma_visit_all_kept(self, b: BeamState, ids: Seq<u32>, p: spec_fn(int) -> bool)
        requires
            self.kept(b, p),
            self.graph.nodes.len() <= Hnsw::MAX_NODES,
            forall|i: int|
                0 <= i < ids.len() ==> (#[trigger] ids[i]) < self.graph.nodes.len() && p(
                    ids[i] as int,
                ),
        ensures
            self.kept(self.visit_all(b, ids), p),
        decreases ids.len(),
    {
        if ids.len() > 0 {
            let head = ids.drop_last();
            assert forall|i: int| 0 <= i < head.len() implies (#[trigger] head[i])
                < self.graph.nodes.len() && p(head[i] as int) by {
                assert(head[i] == ids[i]);
            }
            self.lemma_visit_all_kept(b, head, p);
            assert(ids.last() == ids[ids.len() - 1]);
            self.lemma_visit_kept(self.visit_all(b, head), ids.last() as int, p);
        }
    }

    pub(crate) proof fn lemma_detour_kept(self, b: BeamState, ids: Seq<u32>, p: spec_fn(int) -> bool)
        requires
            self.kept(b, p),
            self.graph.nodes.len() <= Hnsw::MAX_NODES,
            forall|i: int|
                0 <= i < ids.len() ==> (#[trigger] ids[i]) < self.graph.nodes.len() && p(
                    ids[i] as int,
                ),
        ensures
            self.kept(self.detour(b, ids), p),
        decreases ids.len(),
    {
        if ids.len() > 0 {
            let head = ids.drop_last();
            assert forall|i: int| 0 <= i < head.len() implies (#[trigger] head[i])
                < self.graph.nodes.len() && p(head[i] as int) by {
                assert(head[i] == ids[i]);
            }
            self.lemma_detour_kept(b, head, p);
            assert(ids.last() == ids[ids.len() - 1]);
            self.lemma_visit_kept(self.detour(b, head), ids.last() as int, p);
        }
    }

    /// What matches in a list is in the list, and matches.
    pub proof fn lemma_matching_members(self, ids: Seq<u32>)
        ensures
            forall|i: int|
                0 <= i < self.matching(ids).len() ==> ids.contains(#[trigger] self.matching(ids)[i])
                    && self.matches(self.matching(ids)[i] as int),
            self.matching(ids).len() <= ids.len(),
        decreases ids.len(),
    {
        if ids.len() > 0 {
            let head = ids.drop_last();
            self.lemma_matching_members(head);
            assert forall|i: int| 0 <= i < self.matching(ids).len() implies ids.contains(
                #[trigger] self.matching(ids)[i],
            ) && self.matches(self.matching(ids)[i] as int) by {
                if i < self.matching(head).len() {
                    let k = choose|k: int| 0 <= k < head.len() && head[k] == self.matching(head)[i];
                    assert(ids[k] == self.matching(ids)[i]);
                } else {
                    assert(ids[ids.len() - 1] == self.matching(ids)[i]);
                }
            }
        }
    }

    /// What fails in a list is in the list.
    pub(crate) proof fn lemma_failing_members(self, ids: Seq<u32>)
        ensures
            forall|i: int|
                0 <= i < self.failing(ids).len() ==> ids.contains(#[trigger] self.failing(ids)[i]),
        decreases ids.len(),
    {
        if ids.len() > 0 {
            let head = ids.drop_last();
            self.lemma_failing_members(head);
            assert forall|i: int| 0 <= i < self.failing(ids).len() implies ids.contains(
                #[trigger] self.failing(ids)[i],
            ) by {
                if i < self.failing(head).len() {
                    let k = choose|k: int| 0 <= k < head.len() && head[k] == self.failing(head)[i];
                    assert(ids[k] == self.failing(ids)[i]);
                } else {
                    assert(ids[ids.len() - 1] == self.failing(ids)[i]);
                }
            }
        }
    }

    /// What lies across bridges within `p` lies within `p`.
    pub(crate) proof fn lemma_across_within(self, bridges: Seq<u32>, layer: int, p: spec_fn(int) -> bool)
        requires
            self.graph.valid(),
            self.graph.closed_under_links(p, layer),
            forall|i: int| 0 <= i < bridges.len() ==> p((#[trigger] bridges[i]) as int),
        ensures
            forall|i: int|
                0 <= i < self.across(bridges, layer).len() ==> (#[trigger] self.across(
                    bridges,
                    layer,
                )[i]) < self.graph.nodes.len() && p(self.across(bridges, layer)[i] as int),
        decreases bridges.len(),
    {
        if bridges.len() > 0 {
            let head = bridges.drop_last();
            assert forall|i: int| 0 <= i < head.len() implies p((#[trigger] head[i]) as int) by {
                assert(head[i] == bridges[i]);
            }
            self.lemma_across_within(head, layer, p);
            let last = bridges.last() as int;
            assert(p(bridges[bridges.len() - 1] as int));
            let far = self.graph.neighbors(last, layer);
            self.graph.lemma_links_in_range(last, layer);
            self.lemma_matching_members(far);
            let all = self.across(bridges, layer);
            let before = self.across(head, layer);
            assert forall|i: int| 0 <= i < all.len() implies (#[trigger] all[i])
                < self.graph.nodes.len() && p(all[i] as int) by {
                if i < before.len() {
                    assert(all[i] == before[i]);
                } else {
                    assert(all[i] == self.matching(far)[i - before.len()]);
                    let k = choose|k: int| 0 <= k < far.len() && far[k] == all[i];
                    assert(p(self.graph.neighbors(last, layer)[k] as int));
                }
            }
        }
    }

    /// An expansion within `p` keeps the beam as it should be.
    proof fn lemma_expand_kept(self, b: BeamState, id: int, layer: int, p: spec_fn(int) -> bool)
        requires
            self.kept(b, p),
            self.graph.valid(),
            self.graph.closed_under_links(p, layer),
            p(id),
        ensures
            self.kept(self.expand(b, id, layer), p),
    {
        let near = self.graph.neighbors(id, layer);
        self.graph.lemma_links_in_range(id, layer);
        assert forall|i: int| 0 <= i < near.len() implies (#[trigger] near[i])
            < self.graph.nodes.len() && p(near[i] as int) by {
            assert(p(self.graph.neighbors(id, layer)[i] as int));
        }
        if !self.filtered() {
            self.lemma_visit_all_kept(b, near, p);
        } else {
            let direct = self.matching(near);
            self.lemma_matching_members(near);
            assert forall|i: int| 0 <= i < direct.len() implies (#[trigger] direct[i])
                < self.graph.nodes.len() && p(direct[i] as int) by {
                let k = choose|k: int| 0 <= k < near.len() && near[k] == self.matching(near)[i];
                assert(p(near[k] as int));
            }
            self.lemma_visit_all_kept(b, direct, p);
            let bridges = Self::first(self.failing(near), self.graph.m as int);
            self.lemma_failing_members(near);
            assert forall|i: int| 0 <= i < bridges.len() implies p((#[trigger] bridges[i]) as int) by {
                assert(bridges[i] == self.failing(near)[i]);
                let k = choose|k: int| 0 <= k < near.len() && near[k] == self.failing(near)[i];
                assert(p(near[k] as int));
            }
            self.lemma_across_within(bridges, layer, p);
            let hops = self.bridged(near, layer);
            assert forall|i: int| 0 <= i < hops.len() implies (#[trigger] hops[i])
                < self.graph.nodes.len() && p(hops[i] as int) by {
                assert(hops[i] == self.across(bridges, layer)[i]);
            }
            let c = self.visit_all(b, direct);
            self.lemma_visit_all_kept(c, hops, p);
            self.lemma_detour_kept(self.visit_all(c, hops), near, p);
        }
    }

    pub(crate) proof fn lemma_seed_all_kept(self, b: BeamState, ids: Seq<usize>, p: spec_fn(int) -> bool)
        requires
            self.kept(b, p),
            self.graph.nodes.len() <= Hnsw::MAX_NODES,
            forall|i: int|
                0 <= i < ids.len() ==> (#[trigger] ids[i]) < self.graph.nodes.len() && p(
                    ids[i] as int,
                ),
        ensures
            self.kept(self.seed_all(b, ids), p),
        decreases ids.len(),
    {
        if ids.len() > 0 {
            let head = ids.drop_last();
            assert forall|i: int| 0 <= i < head.len() implies (#[trigger] head[i])
                < self.graph.nodes.len() && p(head[i] as int) by {
                assert(head[i] == ids[i]);
            }
            self.lemma_seed_all_kept(b, head, p);
            assert(ids.last() == ids[ids.len() - 1]);
            let c = self.seed_all(b, head);
            if !c.visited.contains(ids.last()) {
                self.lemma_push_kept(c, ids.last() as int, p);
            }
        }
    }

    proof fn lemma_drain_kept(
        self,
        b: BeamState,
        layer: int,
        pops: nat,
        p: spec_fn(int) -> bool,
    )
        requires
            self.kept(b, p),
            self.graph.valid(),
            self.graph.closed_under_links(p, layer),
        ensures
            self.kept(self.drain(b, layer, pops), p),
        decreases pops,
    {
        if !(pops == 0 || b.frontier.len() == 0 || self.finished(b)) {
            self.lemma_pop_kept(b, p);
            let popped = b.pop();
            let id = b.frontier[0].id as int;
            self.lemma_expand_kept(popped, id, layer, p);
            self.lemma_drain_kept(self.expand(popped, id, layer), layer, (pops - 1) as nat, p);
        }
    }

    /// What one layer's search finds: nodes within `p`, each once, scored, in
    /// order, at most `ef`, and all of them returnable.
    pub proof fn lemma_layer_found(
        self,
        entry: Seq<usize>,
        ef: nat,
        layer: int,
        p: spec_fn(int) -> bool,
    )
        requires
            self.graph.valid(),
            self.graph.closed_under_links(p, layer),
            forall|i: int|
                0 <= i < entry.len() ==> (#[trigger] entry[i]) < self.graph.nodes.len() && p(
                    entry[i] as int,
                ),
        ensures
            ascending(self.layer(entry, ef, layer)),
            distinct(self.layer(entry, ef, layer)),
            self.layer(entry, ef, layer).len() <= ef,
            forall|i: int|
                0 <= i < self.layer(entry, ef, layer).len() ==> {
                    let c = #[trigger] self.layer(entry, ef, layer)[i];
                    &&& c == self.score(c.id as int)
                    &&& self.admissible(c.id as int)
                    &&& p(c.id as int)
                    &&& c.id < self.graph.nodes.len()
                },
    {
        let fresh = BeamState::new(ef, 0);
        assert(self.kept(fresh, p));
        self.lemma_seed_all_kept(fresh, entry, p);
        let seeded = self.seed_all(fresh, entry);
        self.lemma_seed_ef(fresh, entry);
        self.lemma_drain_kept(seeded, layer, self.graph.nodes.len(), p);
        self.lemma_drain_ef(seeded, layer, self.graph.nodes.len());
        let done = self.drain(seeded, layer, self.graph.nodes.len());
        assert forall|i: int| 0 <= i < done.results.len() implies (#[trigger] done.results[i]).id
            < self.graph.nodes.len() by {
            assert(done.visited.contains(done.results[i].id));
        }
    }

    proof fn lemma_seed_ef(self, b: BeamState, ids: Seq<usize>)
        ensures
            self.seed_all(b, ids).ef == b.ef,
        decreases ids.len(),
    {
        if ids.len() > 0 {
            self.lemma_seed_ef(b, ids.drop_last());
        }
    }

    proof fn lemma_drain_ef(self, b: BeamState, layer: int, pops: nat)
        ensures
            self.drain(b, layer, pops).ef == b.ef,
        decreases pops,
    {
        if !(pops == 0 || b.frontier.len() == 0 || self.finished(b)) {
            let id = b.frontier[0].id as int;
            self.lemma_expand_keeps_ef(b.pop(), id, layer);
            self.lemma_drain_ef(self.expand(b.pop(), id, layer), layer, (pops - 1) as nat);
        }
    }

    /// A descent ends on one node of the graph.
    pub proof fn lemma_descend_in_range(self, entry: Seq<usize>, top: int, bottom: int)
        requires
            self.graph.valid(),
            entry.len() == 1,
            entry[0] < self.graph.nodes.len(),
        ensures
            self.descend(entry, top, bottom).len() == 1,
            self.descend(entry, top, bottom)[0] < self.graph.nodes.len(),
        decreases top - bottom + 1,
    {
        if top >= bottom {
            let found = self.layer(entry, 1, top);
            self.lemma_layer_found(entry, 1, top, |id: int| true);
            let next = if found.len() > 0 {
                seq![found[0].id]
            } else {
                entry
            };
            self.lemma_descend_in_range(next, top - 1, bottom);
        }
    }

    /// What a search finds: nodes of the graph, each once, scored, in order, at
    /// most `ef`, and all of them returnable.
    pub(crate) proof fn lemma_found(self, ef: nat)
        requires
            self.graph.valid(),
            self.graph.entry_point is Some,
        ensures
            ascending(self.found(ef)),
            distinct(self.found(ef)),
            self.found(ef).len() <= ef,
            forall|i: int|
                0 <= i < self.found(ef).len() ==> {
                    let c = #[trigger] self.found(ef)[i];
                    &&& c == self.score(c.id as int)
                    &&& self.admissible(c.id as int)
                    &&& c.id < self.graph.nodes.len()
                },
    {
        let e = self.graph.entry_point->0;
        let top = self.graph.max_layer as int;
        let any = |id: int| true;
        if self.filtered() {
            let detours = allowance(ef, DETOURS_PER_EF as nat);
            let allowed = allowance(ef, EXPANSIONS_PER_EF as nat);
            self.lemma_foothold_in_range(e, Seq::empty(), top, detours, allowed);
            let f = self.foothold(e, Seq::empty(), top, detours, allowed);
            self.lemma_hunt_found(f.entry(), ef, 0, detours, f.left, any);
        } else {
            let u = self.plain();
            u.lemma_descend_in_range(seq![e], top, 1);
            let entry = u.descend(seq![e], top, 1);
            u.lemma_layer_found(entry, ef, 0, any);
            let found = u.layer(entry, ef, 0);
            assert forall|i: int| 0 <= i < found.len() implies {
                let c = #[trigger] found[i];
                &&& c == self.score(c.id as int)
                &&& self.admissible(c.id as int)
            } by {
                let c = found[i];
                assert(u.admissible(c.id as int));
                assert(c == u.score(c.id as int));
            }
        }
    }

    /// A filtered walk within `p` keeps the beam as it should be.
    proof fn lemma_roam_kept(
        self,
        b: BeamState,
        passed: Seq<Cand>,
        left: nat,
        layer: int,
        p: spec_fn(int) -> bool,
    )
        requires
            self.kept(b, p),
            self.graph.valid(),
            self.graph.closed_under_links(p, layer),
            ascending(passed),
            forall|i: int| 0 <= i < passed.len() ==> p((#[trigger] passed[i]).id as int),
        ensures
            self.kept(self.roam(b, passed, left, layer).beam, p),
            self.roam(b, passed, left, layer).beam.ef == b.ef,
        decreases 2 * left + passed.len(),
    {
        if left == 0 {
        } else if b.frontier.len() > 0 {
            if !self.finished(b) {
                let c = b.frontier[0];
                let id = c.id as int;
                self.lemma_pop_kept(b, p);
                self.lemma_expand_kept(b.pop(), id, layer, p);
                self.lemma_expand_keeps_ef(b.pop(), id, layer);
                lemma_insert_asc(passed, c);
                let more = insert_asc(passed, c);
                assert forall|i: int| 0 <= i < more.len() implies p(
                    (#[trigger] more[i]).id as int,
                ) by {
                    assert(more.contains(more[i]));
                    if more[i] != c {
                        let k = choose|k: int| 0 <= k < passed.len() && passed[k] == more[i];
                        assert(p(passed[k].id as int));
                    }
                }
                self.lemma_roam_kept(
                    self.expand(b.pop(), id, layer),
                    if self.stranded(id, layer) {
                        passed
                    } else {
                        more
                    },
                    (left - 1) as nat,
                    layer,
                    p,
                );
            }
        } else if !(passed.len() == 0 || b.results.len() >= b.ef || b.detours == 0) {
            let id = passed[0].id as int;
            let near = self.graph.neighbors(id, layer);
            self.graph.lemma_links_in_range(id, layer);
            assert forall|i: int| 0 <= i < near.len() implies (#[trigger] near[i])
                < self.graph.nodes.len() && p(near[i] as int) by {
                assert(p(self.graph.neighbors(id, layer)[i] as int));
            }
            self.lemma_detour_kept(b, near, p);
            self.lemma_detour_keeps_ef(b, near);
            let rest = passed.drop_first();
            assert forall|i: int| 0 <= i < rest.len() implies p((#[trigger] rest[i]).id as int) by {
                assert(rest[i] == passed[i + 1]);
            }
            self.lemma_roam_kept(self.detour(b, near), rest, left, layer, p);
        }
    }

    /// What one layer's filtered walk finds: nodes within `p`, each once, scored,
    /// in order, at most `ef`, and all of them returnable.
    proof fn lemma_hunt_found(
        self,
        entry: Seq<usize>,
        ef: nat,
        layer: int,
        detours: nat,
        left: nat,
        p: spec_fn(int) -> bool,
    )
        requires
            self.graph.valid(),
            self.graph.closed_under_links(p, layer),
            forall|i: int|
                0 <= i < entry.len() ==> (#[trigger] entry[i]) < self.graph.nodes.len() && p(
                    entry[i] as int,
                ),
        ensures
            ({
                let found = self.hunt(entry, ef, layer, detours, left).beam.results;
                &&& ascending(found)
                &&& distinct(found)
                &&& found.len() <= ef
                &&& forall|i: int|
                    0 <= i < found.len() ==> {
                        let c = #[trigger] found[i];
                        &&& c == self.score(c.id as int)
                        &&& self.admissible(c.id as int)
                        &&& p(c.id as int)
                        &&& c.id < self.graph.nodes.len()
                    }
            }),
    {
        let fresh = BeamState::new(ef, detours);
        assert(self.kept(fresh, p));
        self.lemma_seed_all_kept(fresh, entry, p);
        self.lemma_seed_ef(fresh, entry);
        let seeded = self.seed_all(fresh, entry);
        self.lemma_roam_kept(seeded, Seq::empty(), left, layer, p);
        let done = self.hunt(entry, ef, layer, detours, left).beam;
        assert forall|i: int| 0 <= i < done.results.len() implies (#[trigger] done.results[i]).id
            < self.graph.nodes.len() by {
            assert(done.visited.contains(done.results[i].id));
        }
    }

    /// A filtered descent ends on nodes of the graph.
    pub(crate) proof fn lemma_foothold_in_range(
        self,
        nav: usize,
        seed: Seq<usize>,
        top: int,
        detours: nat,
        left: nat,
    )
        requires
            self.graph.valid(),
            nav < self.graph.nodes.len(),
            forall|i: int| 0 <= i < seed.len() ==> (#[trigger] seed[i]) < self.graph.nodes.len(),
        ensures
            ({
                let entry = self.foothold(nav, seed, top, detours, left).entry();
                forall|i: int|
                    0 <= i < entry.len() ==> (#[trigger] entry[i]) < self.graph.nodes.len()
            }),
        decreases top,
    {
        if top >= 1 {
            let any = |id: int| true;
            let near = self.plain().layer(seq![nav], 1, top);
            self.plain().lemma_layer_found(seq![nav], 1, top, any);
            let next = if near.len() > 0 {
                near[0].id
            } else {
                nav
            };
            let entry = seq![next] + seed;
            assert forall|i: int| 0 <= i < entry.len() implies (#[trigger] entry[i])
                < self.graph.nodes.len() by {
                if i > 0 {
                    assert(entry[i] == seed[i - 1]);
                }
            }
            self.lemma_hunt_found(entry, 1, top, detours, left, any);
            let t = self.hunt(entry, 1, top, detours, left);
            let found = t.beam.results;
            let more = if found.len() > 0 {
                seq![found[0].id]
            } else {
                seed
            };
            self.lemma_foothold_in_range(next, more, top - 1, t.beam.detours, t.left);
            assert(self.foothold(nav, seed, top, detours, left) == self.foothold(
                next,
                more,
                top - 1,
                t.beam.detours,
                t.left,
            ));
        } else {
            let entry = self.foothold(nav, seed, top, detours, left).entry();
            assert forall|i: int| 0 <= i < entry.len() implies (#[trigger] entry[i])
                < self.graph.nodes.len() by {
                if i > 0 {
                    assert(entry[i] == seed[i - 1]);
                }
            }
        }
    }

    pub(crate) proof fn lemma_pop_kept(self, b: BeamState, p: spec_fn(int) -> bool)
        requires
            self.kept(b, p),
            b.frontier.len() > 0,
        ensures
            self.kept(b.pop(), p),
            p(b.frontier[0].id as int),
    {
        b.lemma_pop(self.graph.nodes.len());
        let popped = b.pop();
        assert forall|i: int| 0 <= i < popped.frontier.len() implies p(
            (#[trigger] popped.frontier[i]).id as int,
        ) by {
            assert(popped.frontier[i] == b.frontier[i + 1]);
        }
    }
}

/// Every search answers with at most `k` nodes, nearest first and each once;
/// every one of them is live, satisfies the predicate, and carries its distance
/// to the query.
pub proof fn answers_are_sound(w: Walk, k: nat, ef: nat)
    requires
        w.graph.valid(),
        w.graph.entry_point is Some,
    ensures
        w.nearest(k, ef).len() <= k,
        ascending(w.nearest(k, ef)),
        distinct(w.nearest(k, ef)),
        forall|i: int|
            0 <= i < w.nearest(k, ef).len() ==> {
                let c = #[trigger] w.nearest(k, ef)[i];
                &&& c.id < w.graph.nodes.len()
                &&& !w.graph.nodes[c.id as int].deleted
                &&& w.matches(c.id as int)
                &&& c.dist == (w.dist)(w.query, w.graph.nodes[c.id as int].vector)
            },
{
    let budget = if ef < k {
        k
    } else {
        ef
    };
    w.lemma_found(budget);
    let found = w.found(budget);
    let near = w.nearest(k, ef);
    assert forall|i: int| 0 <= i < near.len() implies #[trigger] near[i] == found[i] by {}
}

/// A node that fails the predicate, or is tombstoned, is in no answer.
pub proof fn excluded_nodes_are_never_returned(w: Walk, k: nat, ef: nat, id: usize)
    requires
        w.graph.valid(),
        id < w.graph.nodes.len(),
        w.graph.nodes[id as int].deleted || !w.matches(id as int),
    ensures
        search_result(w, k, ef) matches Ok(found) ==> forall|i: int|
            0 <= i < found.len() ==> (#[trigger] found[i]).1 != id,
{
    if w.graph.entry_point is Some && k > 0 && w.query.len() == w.graph.dim {
        answers_are_sound(w, k, ef);
        let near = w.nearest(k, ef);
        assert forall|i: int| 0 <= i < pairs(near).len() implies (#[trigger] pairs(near)[i]).1
            != id by {
            let c = near[i];
        }
    }
}

/// The match-all predicate answers exactly as no predicate does.
pub proof fn match_all_is_unfiltered(w: Walk, k: nat, ef: nat)
    requires
        w.filter == Some(crate::filter::Predicate::All),
    ensures
        search_result(w, k, ef) == search_result(w.plain(), k, ef),
{
    let u = w.plain();
    assert(u.plain() == u);
}

impl Walk {
    /// The scored live nodes are just those, in id order.
    pub(crate) proof fn lemma_live(self, upto: int)
        requires
            0 <= upto <= self.graph.nodes.len() <= usize::MAX,
        ensures
            self.live(upto).len() == upto - deleted_in(self.graph.nodes.take(upto)),
            forall|i: int|
                0 <= i < self.live(upto).len() ==> {
                    let c = #[trigger] self.live(upto)[i];
                    &&& c.id < upto
                    &&& c == self.score(c.id as int)
                    &&& !self.graph.nodes[c.id as int].deleted
                },
            forall|id: int|
                0 <= id < upto && !(#[trigger] self.graph.nodes[id]).deleted ==> self.live(
                    upto,
                ).contains(self.score(id)),
            forall|i: int, j: int|
                0 <= i < j < self.live(upto).len() ==> (#[trigger] self.live(upto)[i]).id < (
                #[trigger] self.live(upto)[j]).id,
        decreases upto,
    {
        let all = self.live(upto);
        if upto > 0 {
            let before = self.live(upto - 1);
            self.lemma_live(upto - 1);
            assert(self.graph.nodes.take(upto).drop_last() =~= self.graph.nodes.take(upto - 1));
            assert(self.graph.nodes.take(upto).last() == self.graph.nodes[upto - 1]);
            assert forall|id: int|
                0 <= id < upto && !(
                #[trigger] self.graph.nodes[id]).deleted implies all.contains(
                self.score(id),
            ) by {
                if id < upto - 1 {
                    let k = choose|k: int| 0 <= k < before.len() && before[k] == self.score(id);
                    assert(all[k] == self.score(id));
                } else {
                    assert(all[all.len() - 1] == self.score(id));
                }
            }
        }
    }
}

/// Different nodes put in order stay different.
pub(crate) proof fn lemma_sorted_distinct(s: Seq<Cand>)
    requires
        distinct(s),
    ensures
        distinct(sorted(s)),
    decreases s.len(),
{
    if s.len() > 0 {
        let head = s.drop_last();
        assert(distinct(head)) by {
            assert forall|i: int, j: int|
                0 <= i < head.len() && 0 <= j < head.len() && i != j implies (
            #[trigger] head[i]).id != (#[trigger] head[j]).id by {
                assert(s[i].id != s[j].id);
            }
        }
        lemma_sorted_distinct(head);
        lemma_sorted(head);
        assert forall|i: int| 0 <= i < sorted(head).len() implies (
        #[trigger] sorted(head)[i]).id != s.last().id by {
            assert(sorted(head).contains(sorted(head)[i]));
            let k = choose|k: int| 0 <= k < head.len() && head[k] == sorted(head)[i];
            assert(s[k].id != s[s.len() - 1].id);
        }
        lemma_insert_distinct(sorted(head), s.last());
    }
}

/// The exact search is exact: it answers with live nodes only, each once and
/// with its distance, nearest first; `k` of them, or all if there are fewer; and
/// every live node it leaves out is no nearer than any that it returns.
pub proof fn exact_answers_are_the_nearest(w: Walk, k: nat)
    requires
        w.graph.valid(),
    ensures
        ({
            let live = w.graph.nodes.len() - w.graph.deleted_count();
            &&& w.exact(k).len() == (if k < live {
                k as int
            } else {
                live
            })
            &&& ascending(w.exact(k))
            &&& distinct(w.exact(k))
            &&& forall|i: int|
                0 <= i < w.exact(k).len() ==> {
                    let c = #[trigger] w.exact(k)[i];
                    &&& c.id < w.graph.nodes.len()
                    &&& c == w.score(c.id as int)
                    &&& !w.graph.nodes[c.id as int].deleted
                }
            &&& forall|id: int, i: int|
                0 <= id < w.graph.nodes.len() && !(#[trigger] w.graph.nodes[id]).deleted && 0 <= i
                    < w.exact(k).len() && !w.exact(k).contains(w.score(id)) ==> cand_le(
                    #[trigger] w.exact(k)[i],
                    w.score(id),
                )
        }),
{
    let n = w.graph.nodes.len() as int;
    let live = w.live(n);
    let all = sorted(live);
    let near = w.exact(k);
    w.lemma_live(n);
    assert(w.graph.nodes.take(n) =~= w.graph.nodes);
    lemma_sorted(live);
    assert(distinct(live)) by {
        assert forall|i: int, j: int|
            0 <= i < live.len() && 0 <= j < live.len() && i != j implies (
        #[trigger] live[i]).id != (#[trigger] live[j]).id by {
            if i < j {
                assert(live[i].id < live[j].id);
            } else {
                assert(live[j].id < live[i].id);
            }
        }
    }
    lemma_sorted_distinct(live);
    assert forall|i: int| 0 <= i < near.len() implies {
        let c = #[trigger] near[i];
        &&& c.id < w.graph.nodes.len()
        &&& c == w.score(c.id as int)
        &&& !w.graph.nodes[c.id as int].deleted
    } by {
        assert(near[i] == all[i]);
        assert(all.contains(all[i]));
        let j = choose|j: int| 0 <= j < live.len() && live[j] == all[i];
        assert(live[j] == near[i]);
    }
    assert(distinct(near)) by {
        assert forall|i: int, j: int|
            0 <= i < near.len() && 0 <= j < near.len() && i != j implies (
        #[trigger] near[i]).id != (#[trigger] near[j]).id by {
            assert(near[i] == all[i] && near[j] == all[j]);
        }
    }
    assert(ascending(near)) by {
        assert forall|i: int, j: int| 0 <= i <= j < near.len() implies cand_le(
            #[trigger] near[i],
            #[trigger] near[j],
        ) by {
            assert(near[i] == all[i] && near[j] == all[j]);
        }
    }
    assert forall|id: int, i: int|
        0 <= id < n && !(#[trigger] w.graph.nodes[id]).deleted && 0 <= i < near.len()
            && !near.contains(w.score(id)) implies cand_le(#[trigger] near[i], w.score(id)) by {
        assert(live.contains(w.score(id)));
        assert(all.contains(w.score(id)));
        let j = choose|j: int| 0 <= j < all.len() && all[j] == w.score(id);
        if j < near.len() {
            assert(near[j] == w.score(id));
        }
        assert(near[i] == all[i]);
        assert(cand_le(all[i], all[j]));
    }
}

} // verus!
