//! A small index is searched exactly.
//!
//! While every neighbor list still has room for every node, an insert links the
//! new node to all others, so the bottom layer is a full mesh and one expansion
//! reaches everything, tombstones or not.

use super::beam::{
    ascending, cand_le, insert_asc, lemma_insert_asc, lemma_order_is_unique, lemma_sorted, sorted,
    BeamState, Cand,
};
use super::found::{distinct, lemma_sorted_distinct};
use super::graph::{Graph, Hnsw};
use super::insert::{ids_of, lemma_entry_for_insert, lemma_next_entry, narrow, Builder, Row};
use super::links::{builds_are_simple, names_others};
use super::params::{HnswError, HnswParams};
use super::search::{pairs, search_result, Walk};
use crate::filter::AttrValue;
use crate::floats::{f32_lt, f32_rank, lemma_f32_value_order, F32_INFINITY};
use vstd::prelude::*;
use vstd::set_lib::{lemma_int_range, lemma_len_subset, set_int_range};

verus! {

/// Different numbers below `n`, none of them `out`, are fewer than `n`.
proof fn lemma_crowd(s: Seq<int>, n: int, out: int)
    requires
        s.no_duplicates(),
        0 <= out < n,
        forall|i: int| 0 <= i < s.len() ==> 0 <= (#[trigger] s[i]) < n && s[i] != out,
    ensures
        s.len() < n,
{
    let room = set_int_range(0, n).remove(out);
    lemma_int_range(0, n);
    s.unique_seq_to_set();
    assert forall|x: int| s.to_set().contains(x) implies room.contains(x) by {
        let i = choose|i: int| 0 <= i < s.len() && s[i] == x;
        assert(0 <= s[i] < n);
    }
    lemma_len_subset(s.to_set(), room);
}

/// The IEEE order agrees with the total order, and nothing lies beyond infinity.
proof fn lemma_lt_ranks(a: u32, b: u32)
    ensures
        f32_lt(a, b) ==> f32_rank(a) < f32_rank(b),
        !f32_lt(F32_INFINITY, b),
{
    lemma_f32_value_order(a, b);
    lemma_f32_value_order(F32_INFINITY, b);
}

impl Graph {
    /// Node `a` links to node `b` on the bottom layer.
    pub open spec fn links_to(self, a: int, b: int) -> bool {
        self.neighbors(a, 0).contains(b as u32)
    }

    /// On the bottom layer each of the first `n` nodes links to every other of
    /// them, and to nothing else.
    pub open spec fn meshed(self, n: int) -> bool {
        &&& 0 <= n <= self.nodes.len()
        &&& forall|a: int, b: int|
            0 <= a < n && 0 <= b < n && a != b ==> #[trigger] self.links_to(a, b)
        &&& forall|a: int, i: int|
            0 <= a < n && 0 <= i < self.neighbors(a, 0).len() ==> (#[trigger] self.neighbors(
                a,
                0,
            )[i]) < n
    }

    /// The two graphs differ at most in their tombstones.
    pub open spec fn same_but_tombstones(self, other: Graph) -> bool {
        &&& self.metric == other.metric
        &&& self.m == other.m
        &&& self.gamma == other.gamma
        &&& self.ef_construction == other.ef_construction
        &&& self.dim == other.dim
        &&& self.seed == other.seed
        &&& self.rng == other.rng
        &&& self.entry_point == other.entry_point
        &&& self.max_layer == other.max_layer
        &&& self.nodes.len() == other.nodes.len()
        &&& forall|id: int|
            0 <= id < self.nodes.len() ==> {
                &&& (#[trigger] self.nodes[id]).vector == other.nodes[id].vector
                &&& self.nodes[id].layers == other.nodes[id].layers
                &&& self.nodes[id].attrs == other.nodes[id].attrs
            }
    }

    proof fn lemma_same_valid(self, other: Graph)
        requires
            other.valid(),
            self.same_but_tombstones(other),
        ensures
            self.valid(),
            forall|n: int| other.meshed(n) ==> #[trigger] self.meshed(n),
    {
        if let Some(e) = self.entry_point {
            assert(self.nodes[e as int].layers == other.nodes[e as int].layers);
        }
        assert forall|id: int| 0 <= id < self.nodes.len() implies #[trigger] self.node_ok(id) by {
            assert(other.node_ok(id));
            assert(self.nodes[id].layers == other.nodes[id].layers);
            assert forall|l: int| 0 <= l < self.nodes[id].layers.len() implies self.list_ok(
                l,
                #[trigger] self.nodes[id].layers[l],
            ) by {
                assert(other.list_ok(l, other.nodes[id].layers[l]));
            }
        }
        assert forall|id: int| #[trigger] self.neighbors(id, 0) == other.neighbors(id, 0) by {
            if 0 <= id < self.nodes.len() {
                assert(self.nodes[id].layers == other.nodes[id].layers);
            }
        }
        assert forall|n: int| other.meshed(n) implies #[trigger] self.meshed(n) by {
            assert forall|a: int, b: int|
                0 <= a < n && 0 <= b < n && a != b implies #[trigger] self.links_to(a, b) by {
                assert(other.links_to(a, b));
            }
            assert forall|a: int, i: int|
                0 <= a < n && 0 <= i < self.neighbors(a, 0).len() implies (
            #[trigger] self.neighbors(a, 0)[i]) < n by {
                assert(other.neighbors(a, 0)[i] < n);
            }
        }
    }
}

/// The first `n` nodes.
spec fn below(n: int) -> spec_fn(int) -> bool {
    |x: int| 0 <= x < n
}

impl Walk {
    /// A beam over the first `n` nodes that holds every returnable node it has
    /// considered.
    spec fn holds_all(self, b: BeamState, n: int) -> bool {
        &&& self.kept(b, below(n))
        &&& forall|k: usize| #[trigger]
            b.visited.contains(k) && self.admissible(k as int) ==> b.results.contains(
                self.score(k as int),
            )
    }

    /// A budget for every node drops none.
    proof fn lemma_push_held(self, b: BeamState, id: int, n: int)
        requires
            self.holds_all(b, n),
            0 <= id < n <= self.graph.nodes.len() <= Hnsw::MAX_NODES,
            !b.visited.contains(id as usize),
            n <= b.ef,
        ensures
            b.results.len() < b.ef,
            self.holds_all(b.see(id as usize).push(self.score(id), self.admissible(id)), n),
    {
        let seen = b.see(id as usize);
        let c = self.score(id);
        let after = seen.push(c, self.admissible(id));
        self.lemma_push_kept(b, id, below(n));
        let ids = Seq::new(b.results.len(), |i: int| b.results[i].id as int);
        assert forall|i: int, j: int|
            0 <= i < ids.len() && 0 <= j < ids.len() && i != j implies ids[i] != ids[j] by {
            assert(b.results[i].id != b.results[j].id);
        }
        assert forall|i: int| 0 <= i < ids.len() implies 0 <= (#[trigger] ids[i]) < n && ids[i]
            != id by {
            assert(b.results[i] == self.score(b.results[i].id as int));
            assert(below(n)(b.results[i].id as int));
            assert(b.visited.contains(b.results[i].id));
        }
        lemma_crowd(ids, n, id);
        lemma_insert_asc(b.results, c);
        assert forall|k: usize| #[trigger]
            after.visited.contains(k) && self.admissible(
                k as int,
            ) implies after.results.contains(self.score(k as int)) by {
            if k == id {
                assert(insert_asc(b.results, c).contains(c));
            } else {
                assert(b.visited.contains(k));
                assert(b.results.contains(self.score(k as int)));
                assert(insert_asc(b.results, c).contains(self.score(k as int)));
            }
        }
    }

    proof fn lemma_visit_all_held(self, b: BeamState, ids: Seq<u32>, n: int)
        requires
            self.holds_all(b, n),
            n <= self.graph.nodes.len() <= Hnsw::MAX_NODES,
            n <= b.ef,
            forall|i: int| 0 <= i < ids.len() ==> (#[trigger] ids[i]) < n,
        ensures
            self.holds_all(self.visit_all(b, ids), n),
            self.visit_all(b, ids).ef == b.ef,
            b.visited.subset_of(self.visit_all(b, ids).visited),
            forall|i: int|
                0 <= i < ids.len() ==> self.visit_all(b, ids).visited.contains(
                    (#[trigger] ids[i]) as usize,
                ),
        decreases ids.len(),
    {
        if ids.len() > 0 {
            let head = ids.drop_last();
            assert forall|i: int| 0 <= i < head.len() implies (#[trigger] head[i]) < n by {
                assert(head[i] == ids[i]);
            }
            self.lemma_visit_all_held(b, head, n);
            let c = self.visit_all(b, head);
            let last = ids.len() - 1;
            let id = ids[last] as int;
            let after = self.visit_all(b, ids);
            if c.visited.contains(id as usize) {
                assert(c.see(id as usize) =~= c);
                assert(after == c);
            } else {
                self.lemma_push_held(c, id, n);
                assert(self.joins(c, id));
            }
            assert forall|i: int| 0 <= i < ids.len() implies after.visited.contains(
                (#[trigger] ids[i]) as usize,
            ) by {
                if i < last {
                    assert(head[i] == ids[i]);
                    assert(c.visited.contains(head[i] as usize));
                }
            }
        }
    }

    /// Seeding holds every seed, and queues what it holds.
    proof fn lemma_seed_all_held(self, ids: Seq<usize>, ef: nat, n: int)
        requires
            0 <= n <= self.graph.nodes.len() <= Hnsw::MAX_NODES,
            n <= ef,
            forall|i: int| 0 <= i < ids.len() ==> (#[trigger] ids[i]) < n,
        ensures
            ({
                let b = self.seed_all(BeamState::new(ef, 0), ids);
                &&& self.holds_all(b, n)
                &&& b.ef == ef
                &&& forall|c: Cand| #[trigger] b.results.contains(c) ==> b.frontier.contains(c)
                &&& ids.len() > 0 ==> b.frontier.len() > 0
            }),
        decreases ids.len(),
    {
        let fresh = BeamState::new(ef, 0);
        if ids.len() == 0 {
            assert(self.kept(fresh, below(n)));
        } else {
            let head = ids.drop_last();
            assert forall|i: int| 0 <= i < head.len() implies (#[trigger] head[i]) < n by {
                assert(head[i] == ids[i]);
            }
            self.lemma_seed_all_held(head, ef, n);
            let b = self.seed_all(fresh, head);
            let id = ids[ids.len() - 1] as int;
            let after = self.seed_all(fresh, ids);
            if b.visited.contains(id as usize) {
                assert(after == b);
                assert(head.len() > 0) by {
                    if head.len() == 0 {
                        assert(b == fresh);
                    }
                }
            } else {
                self.lemma_push_held(b, id, n);
                let c = self.score(id);
                lemma_insert_asc(b.frontier, c);
                lemma_insert_asc(b.results, c);
                assert forall|x: Cand| #[trigger]
                    after.results.contains(x) implies after.frontier.contains(x) by {
                    assert(insert_asc(b.frontier, c).contains(x) <==> b.frontier.contains(x) || x
                        == c);
                    assert(insert_asc(b.results, c).contains(x) <==> b.results.contains(x) || x
                        == c);
                }
            }
        }
    }

    /// Expanding a node of a mesh holds every neighbor.
    proof fn lemma_expand_held(self, b: BeamState, n: int)
        requires
            self.holds_all(b, n),
            self.filter is None,
            self.graph.valid(),
            self.graph.meshed(n),
            n <= b.ef,
            b.frontier.len() > 0,
        ensures
            ({
                let a = b.frontier[0].id as int;
                let after = self.expand(b.pop(), a, 0);
                &&& 0 <= a < n
                &&& self.holds_all(after, n)
                &&& after.ef == b.ef
                &&& b.visited.subset_of(after.visited)
                &&& forall|k: int|
                    0 <= k < n ==> after.visited.contains((#[trigger] self.score(k)).id)
            }),
    {
        let a = b.frontier[0].id as int;
        assert(below(n)(b.frontier[0].id as int));
        let popped = b.pop();
        b.lemma_pop(self.graph.nodes.len());
        assert forall|i: int| 0 <= i < popped.frontier.len() implies below(n)(
            (#[trigger] popped.frontier[i]).id as int,
        ) by {
            assert(popped.frontier[i] == b.frontier[i + 1]);
        }
        assert(self.holds_all(popped, n));
        let near = self.graph.neighbors(a, 0);
        assert forall|i: int| 0 <= i < near.len() implies (#[trigger] near[i]) < n by {
            assert(self.graph.neighbors(a, 0)[i] < n);
        }
        self.lemma_visit_all_held(popped, near, n);
        let after = self.expand(popped, a, 0);
        assert forall|k: int| 0 <= k < n implies after.visited.contains(
            (#[trigger] self.score(k)).id,
        ) by {
            if k == a {
                assert(b.visited.contains(b.frontier[0].id));
                assert(popped.visited.contains(a as usize));
            } else {
                assert(self.graph.links_to(a, k));
                let i = choose|i: int| 0 <= i < near.len() && near[i] == k as u32;
                assert(after.visited.contains(near[i] as usize));
            }
        }
    }

    proof fn lemma_drain_held(self, b: BeamState, pops: nat, n: int)
        requires
            self.holds_all(b, n),
            self.filter is None,
            self.graph.valid(),
            self.graph.meshed(n),
            n <= b.ef,
        ensures
            self.holds_all(self.drain(b, 0, pops), n),
            b.visited.subset_of(self.drain(b, 0, pops).visited),
        decreases pops,
    {
        if !(pops == 0 || b.frontier.len() == 0 || self.finished(b)) {
            self.lemma_expand_held(b, n);
            let next = self.expand(b.pop(), b.frontier[0].id as int, 0);
            self.lemma_drain_held(next, (pops - 1) as nat, n);
        }
    }

    /// Searching a mesh with a budget for all of it finds all of it.
    proof fn lemma_mesh_found(self, eps: Seq<usize>, ef: nat, n: int)
        requires
            self.filter is None,
            self.graph.valid(),
            self.graph.meshed(n),
            n <= ef,
            eps.len() > 0,
            forall|i: int| 0 <= i < eps.len() ==> (#[trigger] eps[i]) < n,
        ensures
            forall|k: int|
                0 <= k < n && self.admissible(k) ==> self.layer(eps, ef, 0).contains(
                    #[trigger] self.score(k),
                ),
    {
        self.lemma_seed_all_held(eps, ef, n);
        let b = self.seed_all(BeamState::new(ef, 0), eps);
        let pops = self.graph.nodes.len();
        assert(eps[0] < n);
        assert(!self.finished(b)) by {
            let f = b.frontier[0];
            lemma_lt_ranks(b.farthest(), f.dist);
            if b.results.len() > 0 {
                let last = b.results.last();
                assert(b.results.contains(last));
                let i = choose|i: int| 0 <= i < b.frontier.len() && b.frontier[i] == last;
                assert(cand_le(b.frontier[0], b.frontier[i]));
            }
        }
        self.lemma_expand_held(b, n);
        let next = self.expand(b.pop(), b.frontier[0].id as int, 0);
        self.lemma_drain_held(next, (pops - 1) as nat, n);
        let done = self.drain(b, 0, pops);
        assert(done == self.drain(next, 0, (pops - 1) as nat));
        assert forall|k: int| 0 <= k < n && self.admissible(k) implies done.results.contains(
            #[trigger] self.score(k),
        ) by {
            assert(next.visited.contains(self.score(k).id));
            assert(done.visited.contains(k as usize));
        }
    }
}

/// Different candidates that are the same candidates are the same in order.
proof fn lemma_same_candidates(a: Seq<Cand>, b: Seq<Cand>)
    requires
        ascending(a),
        ascending(b),
        distinct(a),
        distinct(b),
        forall|c: Cand| #[trigger] a.contains(c) <==> b.contains(c),
    ensures
        a == b,
{
    broadcast use vstd::seq_lib::group_to_multiset_ensures;

    assert(a.no_duplicates()) by {
        assert forall|i: int, j: int|
            0 <= i < a.len() && 0 <= j < a.len() && i != j implies a[i] != a[j] by {
            assert(a[i].id != a[j].id);
        }
    }
    assert(b.no_duplicates()) by {
        assert forall|i: int, j: int|
            0 <= i < b.len() && 0 <= j < b.len() && i != j implies b[i] != b[j] by {
            assert(b[i].id != b[j].id);
        }
    }
    a.lemma_multiset_has_no_duplicates();
    b.lemma_multiset_has_no_duplicates();
    assert forall|c: Cand| a.to_multiset().count(c) == b.to_multiset().count(c) by {
        assert(a.contains(c) <==> a.to_multiset().count(c) > 0);
        assert(b.contains(c) <==> b.to_multiset().count(c) > 0);
        assert(a.to_multiset().contains(c) <==> a.contains(c));
        assert(b.to_multiset().contains(c) <==> b.contains(c));
    }
    assert(a.to_multiset() =~= b.to_multiset());
    lemma_order_is_unique(a, b);
}

impl Builder {
    /// With room for `n` different nodes below `n`, filling up takes them all.
    proof fn lemma_backfill_all(self, cands: Seq<Cand>, selected: Seq<usize>, m: nat, n: int)
        requires
            selected.no_duplicates(),
            0 <= n <= m,
            forall|i: int| 0 <= i < cands.len() ==> (#[trigger] cands[i]).id < n,
            forall|i: int| 0 <= i < selected.len() ==> (#[trigger] selected[i]) < n,
        ensures
            self.backfill(cands, selected, m).no_duplicates(),
            forall|i: int|
                0 <= i < self.backfill(cands, selected, m).len() ==> (#[trigger] self.backfill(
                    cands,
                    selected,
                    m,
                )[i]) < n,
            forall|i: int|
                0 <= i < cands.len() ==> self.backfill(cands, selected, m).contains(
                    (#[trigger] cands[i]).id,
                ),
        decreases cands.len(),
    {
        if cands.len() > 0 {
            let head = cands.drop_last();
            assert forall|i: int| 0 <= i < head.len() implies (#[trigger] head[i]).id < n by {
                assert(head[i] == cands[i]);
            }
            self.lemma_backfill_all(head, selected, m, n);
            let before = self.backfill(head, selected, m);
            let all = self.backfill(cands, selected, m);
            let id = cands[cands.len() - 1].id;
            if !before.contains(id) {
                let ids = Seq::new(before.len(), |i: int| before[i] as int);
                assert forall|i: int| 0 <= i < ids.len() implies 0 <= (#[trigger] ids[i]) < n
                    && ids[i] != id by {
                    assert(before[i] < n);
                }
                assert forall|i: int, j: int|
                    0 <= i < ids.len() && 0 <= j < ids.len() && i != j implies ids[i] != ids[j] by {
                    assert(before[i] != before[j]);
                }
                lemma_crowd(ids, n, id as int);
                assert(all == before.push(id));
                assert(all[before.len() as int] == id);
            }
            assert forall|i: int| 0 <= i < cands.len() implies all.contains(
                (#[trigger] cands[i]).id,
            ) by {
                if i < head.len() {
                    assert(head[i] == cands[i]);
                    assert(before.contains(head[i].id));
                    let k = choose|k: int| 0 <= k < before.len() && before[k] == head[i].id;
                    assert(all[k] == cands[i].id);
                }
            }
        }
    }

    /// With room for all candidates, a selection takes them all.
    proof fn lemma_select_all(self, g: Graph, cands: Seq<Cand>, m: nat, n: int)
        requires
            distinct(cands),
            0 <= n <= m,
            forall|i: int| 0 <= i < cands.len() ==> (#[trigger] cands[i]).id < n,
        ensures
            forall|i: int|
                0 <= i < cands.len() ==> self.select(g, cands, m).contains(
                    (#[trigger] cands[i]).id,
                ),
    {
        let near = sorted(cands);
        lemma_sorted(cands);
        lemma_sorted_distinct(cands);
        self.lemma_diverse_distinct(g, near, m);
        self.lemma_diverse_members(g, near, m);
        let first = self.diverse(g, near, m);
        assert forall|i: int| 0 <= i < near.len() implies (#[trigger] near[i]).id < n by {
            assert(near.contains(near[i]));
            let k = choose|k: int| 0 <= k < cands.len() && cands[k] == near[i];
            assert(cands[k].id < n);
        }
        assert forall|i: int| 0 <= i < first.len() implies (#[trigger] first[i]) < n by {
            assert(ids_of(near).contains(first[i]));
            let k = choose|k: int| 0 <= k < ids_of(near).len() && ids_of(near)[k] == first[i];
            assert(near[k].id < n);
        }
        self.lemma_backfill_all(near, first, m, n);
        assert forall|i: int| 0 <= i < cands.len() implies self.select(g, cands, m).contains(
            (#[trigger] cands[i]).id,
        ) by {
            assert(near.contains(cands[i]));
            let k = choose|k: int| 0 <= k < near.len() && near[k] == cands[i];
            assert(self.backfill(near, first, m).contains(near[k].id));
        }
    }

    /// Where no list overflows, linking back just appends.
    proof fn lemma_link_back_appends(self, g: Graph, chosen: Seq<usize>, id: u32, layer: int)
        requires
            g.valid(),
            g.layered(),
            g.simple(),
            layer >= 0,
            g.on_layer(id as int, layer),
            g.all_on_layer(chosen, layer),
            chosen.no_duplicates(),
            forall|i: int|
                0 <= i < chosen.len() ==> (#[trigger] chosen[i]) != id
                    && !g.nodes[chosen[i] as int].layers[layer].contains(id)
                    && g.nodes[chosen[i] as int].layers[layer].len() < g.cap(layer),
        ensures
            forall|i: int|
                0 <= i < chosen.len() ==> self.link_back(
                    g,
                    chosen,
                    id,
                    layer,
                ).nodes[#[trigger] chosen[i] as int].layers[layer]
                    == g.nodes[chosen[i] as int].layers[layer].push(id),
        decreases chosen.len(),
    {
        if chosen.len() > 0 {
            let head = chosen.drop_last();
            assert forall|i: int| 0 <= i < head.len() implies (#[trigger] head[i]) != id
                && !g.nodes[head[i] as int].layers[layer].contains(id) && g.on_layer(
                head[i] as int,
                layer,
            ) && g.nodes[head[i] as int].layers[layer].len() < g.cap(layer) by {
                assert(head[i] == chosen[i]);
                assert(g.on_layer(chosen[i] as int, layer));
            }
            assert(head.no_duplicates()) by {
                assert forall|i: int, j: int|
                    0 <= i < head.len() && 0 <= j < head.len() && i != j implies head[i]
                    != head[j] by {
                    assert(chosen[i] != chosen[j]);
                }
            }
            self.lemma_link_back_appends(g, head, id, layer);
            self.lemma_link_back_simple(g, head, id, layer);
            self.lemma_link_back(g, head, id, layer);
            let h = self.link_back(g, head, id, layer);
            let last = chosen.len() - 1;
            let n = chosen[last] as int;
            assert(g.on_layer(chosen[last] as int, layer));
            assert(!head.contains(n as usize)) by {
                if head.contains(n as usize) {
                    let k = choose|k: int| 0 <= k < head.len() && head[k] == n as usize;
                    assert(chosen[k] != chosen[last]);
                }
            }
            assert(h.nodes[n] == g.nodes[n]);
            assert(g.nodes[chosen[last] as int].layers[layer].len() < g.cap(layer));
            assert(self.appended(h, n, id, layer) == g.nodes[n].layers[layer].push(id));
            let after = self.link_back(g, chosen, id, layer);
            assert forall|i: int| 0 <= i < chosen.len() implies after.nodes[
                #[trigger] chosen[i] as int
            ].layers[layer] == g.nodes[chosen[i] as int].layers[layer].push(id) by {
                if i < last {
                    assert(chosen[i] != chosen[last]);
                    assert(head[i] == chosen[i]);
                    assert(g.on_layer(chosen[i] as int, layer));
                    assert(h.nodes[head[i] as int].layers[layer]
                        == g.nodes[head[i] as int].layers[layer].push(id));
                    assert(after.nodes[chosen[i] as int] == h.nodes[chosen[i] as int]);
                }
            }
        }
    }

    /// Linking a new node to all others makes the mesh one node larger.
    proof fn lemma_link_meshes(self, g: Graph, chosen: Seq<usize>, id: int)
        requires
            g.valid(),
            g.layered(),
            g.simple(),
            id == g.nodes.len() - 1,
            g.meshed(id),
            g.unlinked(id, 0),
            id <= g.cap(0),
            g.all_on_layer(chosen, 0),
            chosen.no_duplicates(),
            chosen.len() <= g.cap(0),
            forall|i: int| 0 <= i < chosen.len() ==> (#[trigger] chosen[i]) != id,
            forall|k: int| 0 <= k < id ==> chosen.contains(#[trigger] (k as usize)),
        ensures
            self.link(g, chosen, id, 0).meshed(id + 1),
    {
        let list = narrow(chosen);
        let h = g.with_links(id, 0, list);
        assert(g.node_ok(id));
        self.lemma_link(g, chosen, id, 0);
        self.lemma_link_simple(g, chosen, id, 0);
        assert forall|i: int| 0 <= i < chosen.len() implies (#[trigger] chosen[i]) < id by {
            assert(g.on_layer(chosen[i] as int, 0));
        }
        assert forall|i: int| 0 <= i < chosen.len() implies (#[trigger] chosen[i]) != id as u32
            && !h.nodes[chosen[i] as int].layers[0].contains(id as u32)
            && h.nodes[chosen[i] as int].layers[0].len() < h.cap(0) by {
            let c = chosen[i] as int;
            assert(g.on_layer(chosen[i] as int, 0));
            assert(h.nodes[c] == g.nodes[c]);
            assert(g.node_ok(c));
            let links = g.nodes[c].layers[0];
            assert(links == g.neighbors(c, 0));
            assert(names_others(c, links));
            if links.contains(id as u32) {
                let k = choose|k: int| 0 <= k < links.len() && links[k] == id as u32;
                assert(g.nodes[c].layers[0][k] != id);
            }
            let ids = Seq::new(links.len(), |k: int| links[k] as int);
            assert forall|k: int| 0 <= k < ids.len() implies 0 <= (#[trigger] ids[k]) < id
                && ids[k] != c by {
                assert(g.neighbors(c, 0)[k] < id);
                assert(links[k] != c);
            }
            assert forall|k: int, l: int|
                0 <= k < ids.len() && 0 <= l < ids.len() && k != l implies ids[k] != ids[l] by {
                assert(links[k] != links[l]);
            }
            lemma_crowd(ids, id, c);
        }
        assert(h.nodes[id].layers.len() == g.nodes[id].layers.len());
        self.lemma_link_back_appends(h, chosen, id as u32, 0);
        self.lemma_link_back_simple(h, chosen, id as u32, 0);
        let after = self.link(g, chosen, id, 0);
        assert(!chosen.contains(id as usize));
        assert(after.nodes[id] == h.nodes[id]);
        assert(after.neighbors(id, 0) == list);
        assert forall|a: int| 0 <= a < id implies #[trigger] after.neighbors(a, 0) == g.neighbors(
            a,
            0,
        ).push(id as u32) by {
            assert(chosen.contains(a as usize));
            let i = choose|i: int| 0 <= i < chosen.len() && chosen[i] == a as usize;
            assert(h.nodes[a] == g.nodes[a]);
            assert(after.nodes[chosen[i] as int].layers[0]
                == h.nodes[chosen[i] as int].layers[0].push(id as u32));
            assert(g.node_ok(a));
            assert(after.nodes[a].layers.len() == g.nodes[a].layers.len());
        }
        assert forall|a: int, b: int|
            0 <= a < id + 1 && 0 <= b < id + 1 && a != b implies #[trigger] after.links_to(
            a,
            b,
        ) by {
            if a == id {
                assert(chosen.contains(b as usize));
                let i = choose|i: int| 0 <= i < chosen.len() && chosen[i] == b as usize;
                assert(list[i] == b as u32);
            } else {
                let was = g.neighbors(a, 0);
                let now = after.neighbors(a, 0);
                if b == id {
                    assert(now[was.len() as int] == b as u32);
                } else {
                    assert(g.links_to(a, b));
                    let i = choose|i: int| 0 <= i < was.len() && was[i] == b as u32;
                    assert(now[i] == b as u32);
                }
            }
        }
        assert forall|a: int, i: int|
            0 <= a < id + 1 && 0 <= i < after.neighbors(a, 0).len() implies (
        #[trigger] after.neighbors(a, 0)[i]) < id + 1 by {
            if a == id {
                assert(chosen[i] < id);
            } else if i < g.neighbors(a, 0).len() {
                assert(g.neighbors(a, 0)[i] < id);
            }
        }
    }

    /// Connecting a new node to a mesh of live nodes makes the mesh one node
    /// larger, while lists and the candidate pool have room for all.
    proof fn lemma_connect_meshes(
        self,
        g: Graph,
        id: int,
        eps: Seq<usize>,
        entry: usize,
        layer: int,
    )
        requires
            g.valid(),
            g.layered(),
            g.simple(),
            layer >= 0,
            g.on_layer(id, layer),
            g.all_on_layer(eps, layer),
            g.on_layer(entry as int, layer),
            g.unlinked(id, layer),
            eps.len() > 0,
            forall|i: int| 0 <= i < eps.len() ==> (#[trigger] eps[i]) != id,
            entry != id,
            id == g.nodes.len() - 1,
            g.meshed(id),
            id <= g.cap(0),
            id <= g.ef_construction,
            forall|k: int| 0 <= k < g.nodes.len() ==> !(#[trigger] g.nodes[k]).deleted,
        ensures
            self.connect(g, id, eps, entry, layer).meshed(id + 1),
        decreases layer,
    {
        let w = self.around(g, id);
        let found = w.layer(eps, g.ef_construction, layer);
        let chosen = self.select(g, found, g.cap(layer));
        self.lemma_found_on_layer(w, eps, g.ef_construction, layer);
        self.lemma_chosen(g, id, eps, layer);
        self.lemma_link(g, chosen, id, layer);
        self.lemma_link_simple(g, chosen, id, layer);
        let h = self.link(g, chosen, id, layer);
        if layer == 0 {
            assert forall|i: int| 0 <= i < eps.len() implies (#[trigger] eps[i]) < id by {
                assert(g.on_layer(eps[i] as int, layer));
            }
            w.lemma_mesh_found(eps, g.ef_construction, id);
            assert forall|i: int| 0 <= i < found.len() implies (#[trigger] found[i]).id < id by {
                assert(g.on_layer(ids_of(found)[i] as int, layer));
                assert(found[i].id != id);
            }
            self.lemma_select_all(g, found, g.cap(0), id);
            assert forall|k: int| 0 <= k < id implies chosen.contains(#[trigger] (k as usize)) by {
                assert(!g.nodes[k].deleted);
                assert(w.admissible(k));
                assert(found.contains(w.score(k)));
                let i = choose|i: int| 0 <= i < found.len() && found[i] == w.score(k);
                assert(chosen.contains(found[i].id));
            }
            self.lemma_link_meshes(g, chosen, id);
            assert(self.connect(g, id, eps, entry, layer) == h) by {
                reveal_with_fuel(Builder::connect, 2);
            }
        } else {
            let next = if found.len() == 0 {
                seq![entry]
            } else {
                ids_of(found)
            };
            lemma_next_entry(g, h, found, entry, layer);
            assert forall|i: int| 0 <= i < next.len() implies (#[trigger] next[i]) != id by {
                if found.len() > 0 {
                    assert(found[i].id != id);
                }
            }
            assert forall|a: int| #[trigger] h.neighbors(a, 0) == g.neighbors(a, 0) by {
                if 0 <= a < g.nodes.len() {
                    assert(g.node_ok(a));
                    assert(h.nodes[a].layers.len() == g.nodes[a].layers.len());
                    assert(h.nodes[a].layers[0] == g.nodes[a].layers[0]);
                }
            }
            assert(h.meshed(id)) by {
                assert forall|a: int, b: int|
                    0 <= a < id && 0 <= b < id && a != b implies #[trigger] h.links_to(a, b) by {
                    assert(g.links_to(a, b));
                }
                assert forall|a: int, i: int|
                    0 <= a < id && 0 <= i < h.neighbors(a, 0).len() implies (
                #[trigger] h.neighbors(a, 0)[i]) < id by {
                    assert(g.neighbors(a, 0)[i] < id);
                }
            }
            self.lemma_connect_meshes(h, id, next, entry, layer - 1);
        }
    }

    /// An insert into a mesh of live nodes makes it one node larger, while lists
    /// and the candidate pool have room for all.
    proof fn lemma_insert_meshes(self, g: Graph, vector: Seq<u32>, attrs: Seq<AttrValue>)
        requires
            g.valid(),
            g.layered(),
            g.simple(),
            g.meshed(g.nodes.len() as int),
            g.nodes.len() <= g.cap(0),
            g.nodes.len() <= g.ef_construction,
            forall|k: int| 0 <= k < g.nodes.len() ==> !(#[trigger] g.nodes[k]).deleted,
        ensures
            ({
                let h = self.inserted(g, vector, attrs);
                &&& h.meshed(h.nodes.len() as int)
                &&& h.nodes.len() <= g.nodes.len() + 1
                &&& h.cap(0) == g.cap(0)
                &&& h.ef_construction == g.ef_construction
                &&& forall|k: int| 0 <= k < h.nodes.len() ==> !(#[trigger] h.nodes[k]).deleted
            }),
    {
        let h = self.inserted(g, vector, attrs);
        let id = g.nodes.len() as int;
        self.lemma_inserted(g, vector, attrs);
        super::laws::insert_adds_one_node(self, g, vector, attrs);
        if self.insert_result(g, vector) is Err {
            assert(h.nodes == g.nodes);
            assert forall|a: int| #[trigger] h.neighbors(a, 0) == g.neighbors(a, 0) by {}
            lemma_mesh_moves(g, h, id);
        } else {
            let level = self.next_level(g);
            let with = self.placed(self.drawn(g, vector.len()), vector, attrs, level);
            assert(h.same_frame(with));
            assert forall|k: int| 0 <= k < h.nodes.len() implies !(
            #[trigger] h.nodes[k]).deleted by {
                if k < id {
                    assert(h.nodes[k].deleted == g.nodes[k].deleted);
                    assert(!g.nodes[k].deleted);
                }
            }
            assert forall|a: int| 0 <= a < id implies #[trigger] with.neighbors(a, 0)
                == g.neighbors(a, 0) by {
                assert(with.nodes[a] == g.nodes[a]);
            }
            lemma_mesh_moves(g, with, id);
            match g.entry_point {
                None => {
                    assert(with.neighbors(0, 0) =~= Seq::<u32>::empty());
                    assert(h == with);
                },
                Some(e) => {
                    let top = if level < g.max_layer {
                        level as int
                    } else {
                        g.max_layer as int
                    };
                    let w = self.around(with, id);
                    let eps = w.descend(seq![e], g.max_layer as int, level as int + 1);
                    self.lemma_placed_unlinked(g, vector, attrs, g.max_layer as int);
                    lemma_entry_for_insert(self, g, vector, attrs);
                    self.lemma_descend_elsewhere(
                        w,
                        seq![e],
                        g.max_layer as int,
                        level as int + 1,
                        id,
                    );
                    assert(with.unlinked(id, top));
                    assert forall|k: int| 0 <= k < with.nodes.len() implies !(
                    #[trigger] with.nodes[k]).deleted by {
                        if k < id {
                            assert(with.nodes[k] == g.nodes[k]);
                        }
                    }
                    self.lemma_connect_meshes(with, id, eps, e, top);
                },
            }
        }
    }
}

/// The same lists make the same mesh.
proof fn lemma_mesh_moves(g: Graph, h: Graph, n: int)
    requires
        g.meshed(n),
        n <= h.nodes.len(),
        forall|a: int| 0 <= a < n ==> #[trigger] h.neighbors(a, 0) == g.neighbors(a, 0),
    ensures
        h.meshed(n),
{
    assert forall|a: int, b: int|
        0 <= a < n && 0 <= b < n && a != b implies #[trigger] h.links_to(a, b) by {
        assert(g.links_to(a, b));
    }
    assert forall|a: int, i: int|
        0 <= a < n && 0 <= i < h.neighbors(a, 0).len() implies (#[trigger] h.neighbors(a, 0)[i])
        < n by {
        assert(g.neighbors(a, 0)[i] < n);
    }
}

/// A build that no list and no candidate pool is too small for links every two
/// nodes on the bottom layer.
proof fn lemma_build_meshes(b: Builder, params: HnswParams, rows: Seq<Row>)
    requires
        params.m <= usize::MAX / 2,
        rows.len() <= Graph::empty(params).cap(0) + 1,
        rows.len() <= Graph::empty(params).ef_construction + 1,
    ensures
        ({
            let g = b.insert_all(Graph::empty(params), rows);
            &&& g.meshed(g.nodes.len() as int)
            &&& g.nodes.len() <= rows.len()
            &&& g.cap(0) == Graph::empty(params).cap(0)
            &&& g.ef_construction == Graph::empty(params).ef_construction
            &&& forall|k: int| 0 <= k < g.nodes.len() ==> !(#[trigger] g.nodes[k]).deleted
        }),
    decreases rows.len(),
{
    if rows.len() > 0 {
        let head = rows.drop_last();
        lemma_build_meshes(b, params, head);
        builds_are_simple(b, params, head);
        b.lemma_insert_meshes(
            b.insert_all(Graph::empty(params), head),
            rows.last().vector,
            rows.last().attrs,
        );
    }
}

/// A small index is searched exactly. While no neighbor list and no candidate
/// pool of the build was too small for every other node, and whatever was
/// deleted since, a search whose budget covers the index answers with exactly
/// the nearest live nodes that an exhaustive search answers with.
pub proof fn small_indexes_are_searched_exactly(
    b: Builder,
    params: HnswParams,
    rows: Seq<Row>,
    w: Walk,
    k: nat,
    ef: nat,
)
    requires
        params.m <= usize::MAX / 2,
        rows.len() <= Graph::empty(params).cap(0) + 1,
        rows.len() <= Graph::empty(params).ef_construction + 1,
        w.graph.same_but_tombstones(b.insert_all(Graph::empty(params), rows)),
        w.filter is None,
        w.query.len() == w.graph.dim,
        w.graph.nodes.len() <= k || w.graph.nodes.len() <= ef,
    ensures
        search_result(w, k, ef) == Ok::<Seq<(u32, usize)>, HnswError>(pairs(w.exact(k))),
{
    let g = b.insert_all(Graph::empty(params), rows);
    let n = g.nodes.len() as int;
    builds_are_simple(b, params, rows);
    lemma_build_meshes(b, params, rows);
    w.graph.lemma_same_valid(g);
    assert(w.graph.meshed(n));
    if k == 0 || w.graph.entry_point is None {
        if w.graph.entry_point is None {
            assert(w.live(n) =~= Seq::<Cand>::empty());
        }
        assert(w.exact(k) =~= Seq::<Cand>::empty());
        assert(pairs(w.exact(k)) =~= Seq::<(u32, usize)>::empty());
    } else {
        let e = w.graph.entry_point->0;
        assert(w.plain() == w);
        w.lemma_descend_in_range(seq![e], w.graph.max_layer as int, 1);
        let eps = w.descend(seq![e], w.graph.max_layer as int, 1);
        let budget = if ef < k {
            k
        } else {
            ef
        };
        let found = w.layer(eps, budget, 0);
        w.lemma_mesh_found(eps, budget, n);
        w.lemma_layer_found(eps, budget, 0, |x: int| true);
        w.lemma_live(n);
        let live = w.live(n);
        let all = sorted(live);
        lemma_sorted(live);
        assert(distinct(live)) by {
            assert forall|i: int, j: int|
                0 <= i < live.len() && 0 <= j < live.len() && i != j implies (
            #[trigger] live[i]).id != (#[trigger] live[j]).id by {
                if i < j {
                    assert(live[i].id < live[j].id);
                } else {
                    assert(live[j].id < live[i].id);
                }
            }
        }
        lemma_sorted_distinct(live);
        assert forall|c: Cand| #[trigger] found.contains(c) <==> all.contains(c) by {
            if found.contains(c) {
                let i = choose|i: int| 0 <= i < found.len() && found[i] == c;
                let d = w.layer(eps, budget, 0)[i];
                assert(!w.graph.nodes[d.id as int].deleted);
                assert(live.contains(w.score(d.id as int)));
            }
            if all.contains(c) {
                assert(live.contains(c));
                let i = choose|i: int| 0 <= i < live.len() && live[i] == c;
                assert(live[i].id < n);
                assert(w.admissible(c.id as int));
                assert(found.contains(w.score(c.id as int)));
            }
        }
        lemma_same_candidates(found, all);
    }
}

} // verus!
