//! How a new node is wired into the graph.
//!
//! What a build keeps of the candidates it finds, and what an insert does to the
//! neighbor lists of both sides, stated of the lists themselves.

use super::beam::{
    ascending, cand_le, lemma_order_is_unique, lemma_sorted, sorted, Cand,
};
use super::complete::lemma_ranks_and_values;
use super::found::{distinct, lemma_sorted_distinct};
use super::graph::{Graph, Hnsw};
use super::insert::{
    ids_of, lemma_entry_for_insert, lemma_next_entry, level_ok, level_value, narrow, xorshift, Builder,
};
use super::links::names_others;
use super::params::{degrees_do_not_vanish, HnswError};
use super::search::Walk;
use crate::distance::Kernel;
use crate::filter::AttrValue;
use crate::floats::{f32_is_nan, f32_lt};
use vstd::prelude::*;

verus! {

/// A node is among the candidates before the one at `i`.
pub open spec fn comes_before(cands: Seq<Cand>, i: int, id: usize) -> bool {
    exists|p: int| 0 <= p < i && (#[trigger] cands[p]).id == id
}

impl Builder {
    /// Topping up keeps what is there and stops only when full or out of
    /// candidates.
    proof fn lemma_backfill_fills(self, cands: Seq<Cand>, selected: Seq<usize>, m: nat)
        requires
            distinct(cands),
        ensures
            self.backfill(cands, selected, m).len() >= selected.len(),
            self.backfill(cands, selected, m).take(selected.len() as int) == selected,
            self.backfill(cands, selected, m).len() < m ==> forall|i: int|
                0 <= i < cands.len() ==> self.backfill(cands, selected, m).contains(
                    (#[trigger] cands[i]).id,
                ),
            forall|x: int, i: int|
                selected.len() <= x < self.backfill(cands, selected, m).len() && 0 <= i
                    < cands.len() && !self.backfill(cands, selected, m).contains(
                    (#[trigger] cands[i]).id,
                ) ==> comes_before(cands, i, #[trigger] self.backfill(cands, selected, m)[x]),
        decreases cands.len(),
    {
        let s = self.backfill(cands, selected, m);
        if cands.len() == 0 {
            assert(s.take(selected.len() as int) =~= selected);
        } else {
            let head = cands.drop_last();
            let last = cands.len() - 1;
            assert(distinct(head)) by {
                assert forall|i: int, j: int|
                    0 <= i < head.len() && 0 <= j < head.len() && i != j implies (
                #[trigger] head[i]).id != (#[trigger] head[j]).id by {
                    assert(cands[i].id != cands[j].id);
                }
            }
            self.lemma_backfill_fills(head, selected, m);
            let before = self.backfill(head, selected, m);
            assert(s.take(selected.len() as int) =~= before.take(selected.len() as int));
            assert forall|id: usize| before.contains(id) implies #[trigger] s.contains(id) by {
                let i = choose|i: int| 0 <= i < before.len() && before[i] == id;
                assert(s[i] == id);
            }
            if s.len() < m {
                assert forall|i: int| 0 <= i < cands.len() implies s.contains(
                    (#[trigger] cands[i]).id,
                ) by {
                    if i < last {
                        assert(before.contains(head[i].id));
                    } else if !before.contains(cands[i].id) {
                        assert(s[before.len() as int] == cands[i].id);
                    }
                }
            }
            assert forall|x: int, i: int|
                selected.len() <= x < s.len() && 0 <= i < cands.len() && !s.contains(
                    (#[trigger] cands[i]).id,
                ) implies comes_before(cands, i, #[trigger] s[x]) by {
                if x < before.len() {
                    if i < last {
                        assert(!before.contains(head[i].id));
                        assert(comes_before(head, i, before[x]));
                        let p = choose|p: int|
                            0 <= p < i && (#[trigger] head[p]).id == before[x];
                        assert(cands[p].id == s[x]);
                    } else {
                        self.lemma_backfilled_from(head, selected, m, x);
                        let p = choose|p: int|
                            0 <= p < head.len() && (#[trigger] head[p]).id == before[x];
                        assert(cands[p].id == s[x]);
                    }
                } else {
                    assert(s[x] == cands[last].id);
                    if i < last {
                        assert(before.len() < m);
                        assert(before.contains(head[i].id));
                    } else {
                        assert(s.contains(s[x]));
                    }
                }
            }
        }
    }

    /// What tops a selection up is a candidate.
    proof fn lemma_backfilled_from(self, cands: Seq<Cand>, selected: Seq<usize>, m: nat, x: int)
        requires
            selected.len() <= x < self.backfill(cands, selected, m).len(),
        ensures
            exists|p: int|
                0 <= p < cands.len() && (#[trigger] cands[p]).id == self.backfill(
                    cands,
                    selected,
                    m,
                )[x],
        decreases cands.len(),
    {
        if cands.len() > 0 {
            let head = cands.drop_last();
            let before = self.backfill(head, selected, m);
            if x < before.len() {
                self.lemma_backfilled_from(head, selected, m, x);
                let p = choose|p: int| 0 <= p < head.len() && (#[trigger] head[p]).id == before[x];
                assert(cands[p].id == before[x]);
            } else {
                assert(cands[cands.len() - 1].id == self.backfill(cands, selected, m)[x]);
            }
        }
    }

    /// A candidate is nearer to another than to the base.
    pub open spec fn crowds(self, g: Graph, other: Cand, c: Cand) -> bool {
        f32_lt((self.dist)(g.nodes[c.id as int].vector, g.nodes[other.id as int].vector), c.dist)
    }

    /// The diverse ones among candidates in order: no one of them is crowded by
    /// one before it, and every other is, or came when there were enough.
    pub open spec fn spread(self, g: Graph, near: Seq<Cand>, picked: Seq<usize>, m: nat) -> bool {
        &&& picked.len() <= m
        &&& forall|p: int, q: int|
            0 <= p < q < near.len() && picked.contains((#[trigger] near[p]).id) && picked.contains(
                (#[trigger] near[q]).id,
            ) ==> !self.crowds(g, near[p], near[q])
        &&& forall|q: int|
            0 <= q < near.len() && !picked.contains((#[trigger] near[q]).id) ==> {
                ||| exists|p: int|
                    0 <= p < q && picked.contains((#[trigger] near[p]).id) && self.crowds(
                        g,
                        near[p],
                        near[q],
                    )
                ||| picked.len() == m && forall|p: int|
                    q < p < near.len() ==> !picked.contains((#[trigger] near[p]).id)
            }
    }

    proof fn lemma_diverse_spreads(self, g: Graph, near: Seq<Cand>, m: nat)
        requires
            distinct(near),
        ensures
            self.spread(g, near, self.diverse(g, near, m), m),
        decreases near.len(),
    {
        let all = self.diverse(g, near, m);
        self.lemma_diverse_members(g, near, m);
        if near.len() > 0 {
            let head = near.drop_last();
            let last = near.len() - 1;
            let c = near[last];
            assert(distinct(head)) by {
                assert forall|i: int, j: int|
                    0 <= i < head.len() && 0 <= j < head.len() && i != j implies (
                #[trigger] head[i]).id != (#[trigger] head[j]).id by {
                    assert(near[i].id != near[j].id);
                }
            }
            self.lemma_diverse_spreads(g, head, m);
            self.lemma_diverse_members(g, head, m);
            let before = self.diverse(g, head, m);
            assert(!before.contains(c.id)) by {
                if before.contains(c.id) {
                    let i = choose|i: int| 0 <= i < before.len() && before[i] == c.id;
                    assert(ids_of(head).contains(before[i]));
                    let k = choose|k: int| 0 <= k < ids_of(head).len() && ids_of(head)[k] == c.id;
                    assert(near[k].id != near[last].id);
                }
            }
            let took = before.len() < m && self.diverse_from(g, c, before);
            assert forall|id: usize| #[trigger] all.contains(id) <==> before.contains(id) || (took
                && id == c.id) by {
                if before.contains(id) {
                    let i = choose|i: int| 0 <= i < before.len() && before[i] == id;
                    assert(all[i] == id);
                }
                if took {
                    assert(all[before.len() as int] == c.id);
                }
            }
            assert forall|p: int, q: int|
                0 <= p < q < near.len() && all.contains((#[trigger] near[p]).id) && all.contains(
                    (#[trigger] near[q]).id,
                ) implies !self.crowds(g, near[p], near[q]) by {
                assert(near[p].id != c.id) by {
                    assert(near[p].id != near[last].id);
                }
                assert(before.contains(head[p].id));
                if q < last {
                    assert(near[q].id != near[last].id);
                    assert(before.contains(head[q].id));
                } else {
                    let i = choose|i: int| 0 <= i < before.len() && before[i] == near[p].id;
                    assert(!f32_lt(
                        (self.dist)(g.nodes[c.id as int].vector, g.nodes[before[i] as int].vector),
                        c.dist,
                    ));
                }
            }
            assert forall|q: int|
                0 <= q < near.len() && !all.contains((#[trigger] near[q]).id) implies {
                ||| exists|p: int|
                    0 <= p < q && all.contains((#[trigger] near[p]).id) && self.crowds(
                        g,
                        near[p],
                        near[q],
                    )
                ||| all.len() == m && forall|p: int|
                    q < p < near.len() ==> !all.contains((#[trigger] near[p]).id)
            } by {
                if q < last {
                    assert(!before.contains(head[q].id));
                    if exists|p: int|
                        0 <= p < q && before.contains((#[trigger] head[p]).id) && self.crowds(
                            g,
                            head[p],
                            head[q],
                        ) {
                        let p = choose|p: int|
                            0 <= p < q && before.contains((#[trigger] head[p]).id) && self.crowds(
                                g,
                                head[p],
                                head[q],
                            );
                        assert(all.contains(near[p].id));
                    } else {
                        assert(before.len() == m);
                        assert(!took);
                        assert forall|p: int| q < p < near.len() implies !all.contains(
                            (#[trigger] near[p]).id,
                        ) by {
                            if p < last {
                                assert(!before.contains(head[p].id));
                            }
                        }
                    }
                } else if before.len() < m {
                    assert(!self.diverse_from(g, c, before));
                    let i = choose|i: int|
                        0 <= i < before.len() && f32_lt(
                            (self.dist)(
                                g.nodes[c.id as int].vector,
                                g.nodes[#[trigger] before[i] as int].vector,
                            ),
                            c.dist,
                        );
                    assert(ids_of(head).contains(before[i]));
                    let k = choose|k: int|
                        0 <= k < ids_of(head).len() && ids_of(head)[k] == before[i];
                    assert(near[k].id == before[i]);
                    assert(before.contains(before[i]));
                    assert(all.contains(near[k].id));
                }
            }
        }
    }

    /// A selection has as many nodes as it may, starting with the nearest.
    pub(crate) proof fn lemma_select_fills(self, g: Graph, cands: Seq<Cand>, m: nat)
        requires
            distinct(cands),
        ensures
            self.select(g, cands, m).len() == (if cands.len() < m {
                cands.len()
            } else {
                m
            }),
            self.select(g, cands, m).no_duplicates(),
            cands.len() <= m ==> forall|i: int|
                0 <= i < cands.len() ==> self.select(g, cands, m).contains(
                    (#[trigger] cands[i]).id,
                ),
            ascending(cands) && cands.len() > 0 && m > 0 ==> self.select(g, cands, m)[0]
                == cands[0].id,
    {
        let near = sorted(cands);
        lemma_sorted(cands);
        lemma_sorted_distinct(cands);
        let first = self.diverse(g, near, m);
        let s = self.select(g, cands, m);
        self.lemma_diverse_members(g, near, m);
        self.lemma_backfill_fills(near, first, m);
        self.lemma_select_members(g, cands, m);
        self.lemma_select_distinct(g, cands, m);
        let ids = ids_of(cands);
        assert(ids.no_duplicates());
        ids.unique_seq_to_set();
        s.unique_seq_to_set();
        assert(s.to_set().subset_of(ids.to_set())) by {
            assert forall|id: usize| s.to_set().contains(id) implies ids.to_set().contains(id) by {
                let i = choose|i: int| 0 <= i < s.len() && s[i] == id;
                assert(ids.contains(s[i]));
            }
        }
        vstd::set_lib::lemma_len_subset(s.to_set(), ids.to_set());
        if s.len() < m {
            assert forall|i: int| 0 <= i < cands.len() implies s.contains(
                (#[trigger] cands[i]).id,
            ) by {
                assert(cands.contains(cands[i]));
                assert(near.contains(cands[i]));
                let k = choose|k: int| 0 <= k < near.len() && near[k] == cands[i];
                assert(s.contains(near[k].id));
            }
            assert(ids.to_set().subset_of(s.to_set())) by {
                assert forall|id: usize| ids.to_set().contains(id) implies s.to_set().contains(
                    id,
                ) by {
                    let i = choose|i: int| 0 <= i < ids.len() && ids[i] == id;
                    assert(s.contains(cands[i].id));
                }
            }
            vstd::set_lib::lemma_len_subset(ids.to_set(), s.to_set());
        } else if cands.len() == m {
            vstd::set_lib::lemma_subset_equality(s.to_set(), ids.to_set());
            assert forall|i: int| 0 <= i < cands.len() implies s.contains(
                (#[trigger] cands[i]).id,
            ) by {
                assert(ids[i] == cands[i].id);
                assert(ids.to_set().contains(ids[i]));
                assert(s.to_set().contains(ids[i]));
            }
        }
        if ascending(cands) && cands.len() > 0 && m > 0 {
            lemma_order_is_unique(near, cands);
            self.lemma_diverse_first(g, near, m);
            assert(s.take(first.len() as int)[0] == s[0]);
        }
    }

    /// The nearest candidate is always diverse.
    proof fn lemma_diverse_first(self, g: Graph, near: Seq<Cand>, m: nat)
        requires
            near.len() > 0,
            m > 0,
        ensures
            self.diverse(g, near, m).len() > 0,
            self.diverse(g, near, m)[0] == near[0].id,
        decreases near.len(),
    {
        let head = near.drop_last();
        if near.len() > 1 {
            self.lemma_diverse_first(g, head, m);
        } else {
            assert(self.diverse(g, head, m) =~= Seq::<usize>::empty());
        }
    }
}

/// What a build keeps of candidates, given nearest first: as many as it may. They
/// start with the ones that are spread out: the nearest, then each that is
/// nearer to the base than to any of these before it. When those are too few, the
/// nearest of the others fill up.
pub proof fn selections_are_spread_out(b: Builder, g: Graph, near: Seq<Cand>, m: nat)
    requires
        ascending(near),
        distinct(near),
    ensures
        ({
            let s = b.select(g, near, m);
            &&& s.no_duplicates()
            &&& s.len() == (if near.len() < m {
                near.len()
            } else {
                m
            })
            &&& forall|x: int| 0 <= x < s.len() ==> ids_of(near).contains(#[trigger] s[x])
            &&& exists|d: int|
                0 <= d <= s.len() && b.spread(g, near, #[trigger] s.take(d), m) && forall|
                    x: int,
                    i: int,
                |
                    d <= x < s.len() && 0 <= i < near.len() && !s.contains((#[trigger] near[i]).id)
                        ==> comes_before(near, i, #[trigger] s[x])
        }),
{
    let s = b.select(g, near, m);
    lemma_sorted(near);
    lemma_order_is_unique(sorted(near), near);
    b.lemma_select_fills(g, near, m);
    b.lemma_select_members(g, near, m);
    let first = b.diverse(g, near, m);
    b.lemma_diverse_spreads(g, near, m);
    b.lemma_backfill_fills(near, first, m);
    assert(s.take(first.len() as int) == first);
}

/// What a build keeps does not depend on the order the candidates come in.
pub proof fn selections_ignore_the_order(
    b: Builder,
    g: Graph,
    cands: Seq<Cand>,
    others: Seq<Cand>,
    m: nat,
)
    requires
        cands.to_multiset() == others.to_multiset(),
    ensures
        b.select(g, cands, m) == b.select(g, others, m),
{
    lemma_sorted(cands);
    lemma_sorted(others);
    lemma_order_is_unique(sorted(cands), sorted(others));
}

/// Nodes scored against node `base`.
pub open spec fn scored_against(b: Builder, g: Graph, base: int, list: Seq<u32>) -> Seq<Cand> {
    Seq::new(
        list.len(),
        |i: int|
            Cand {
                dist: (b.dist)(g.nodes[base].vector, g.nodes[list[i] as int].vector),
                id: list[i] as usize,
            },
    )
}

/// What linking back to a new node makes of a neighbor's list: the new id comes
/// last while there is room; a full list keeps as many, from its own nodes and
/// the new one, the nearest of them first, selected as a build selects.
pub open spec fn grown(
    b: Builder,
    g: Graph,
    n: int,
    was: Seq<u32>,
    now: Seq<u32>,
    id: int,
    cap: nat,
) -> bool {
    &&& was.len() < cap ==> now == was.push(id as u32)
    &&& was.len() >= cap ==> {
        &&& now.len() == cap
        &&& now.no_duplicates()
        &&& forall|i: int|
            0 <= i < now.len() ==> was.contains(#[trigger] now[i]) || now[i] == id as u32
        &&& forall|y: u32| #[trigger]
            was.contains(y) || y == id as u32 ==> now.len() > 0 ==> !f32_lt(
                (b.dist)(g.nodes[n].vector, g.nodes[y as int].vector),
                (b.dist)(g.nodes[n].vector, g.nodes[now[0] as int].vector),
            )
        &&& now == narrow(b.select(g, scored_against(b, g, n, was.push(id as u32)), cap))
    }
}

/// A build's candidates for the list of node `id`: live nodes of the layer, scored
/// and nearest first, as many as the build's pool holds. Nothing live that is
/// linked from one of them is missing, unless the pool is full and it is no nearer
/// than the farthest in it; and just as little is missing of `above`, what the node
/// is linked to on the layer above. The list is what a build selects of them.
pub open spec fn pooled(
    b: Builder,
    g: Graph,
    mine: Seq<u32>,
    above: Seq<u32>,
    pool: Seq<Cand>,
    id: int,
    layer: int,
) -> bool {
    let v = g.nodes[id].vector;
    &&& pool.len() <= g.ef_construction
    &&& ascending(pool)
    &&& distinct(pool)
    &&& forall|i: int|
        0 <= i < pool.len() ==> {
            let c = #[trigger] pool[i];
            &&& c.id != id && g.on_layer(c.id as int, layer) && !g.nodes[c.id as int].deleted
            &&& c.dist == (b.dist)(v, g.nodes[c.id as int].vector)
        }
    &&& forall|i: int, j: int|
        0 <= i < pool.len() && 0 <= j < g.nodes[pool[i].id as int].layers[layer].len() ==> {
            let y = #[trigger] g.nodes[pool[i].id as int].layers[layer][j];
            !g.nodes[y as int].deleted ==> comes_before(pool, pool.len() as int, y as usize) || (
            pool.len() == g.ef_construction && !f32_lt(
                (b.dist)(v, g.nodes[y as int].vector),
                pool.last().dist,
            ))
        }
    &&& forall|i: int|
        0 <= i < above.len() && !g.nodes[above[i] as int].deleted ==> {
            let z = #[trigger] above[i];
            comes_before(pool, pool.len() as int, z as usize) || (pool.len()
                == g.ef_construction && !f32_lt(
                (b.dist)(v, g.nodes[z as int].vector),
                pool.last().dist,
            ))
        }
    &&& mine == narrow(b.select(g, pool, g.cap(layer)))
}

/// The list of node `id` on the layer above, if it is on that layer.
pub open spec fn list_above(h: Graph, id: int, layer: int) -> Seq<u32> {
    if layer + 1 < h.nodes[id].layers.len() {
        h.nodes[id].layers[layer + 1]
    } else {
        Seq::empty()
    }
}

/// Every distance to `v` is a number.
pub open spec fn scores(b: Builder, g: Graph, v: Seq<u32>) -> bool {
    forall|k: int|
        0 <= k < g.nodes.len() ==> !f32_is_nan((b.dist)(v, (#[trigger] g.nodes[k]).vector))
}

/// Node `id` of `h` is wired into layer `layer` of `g`. Its list names other
/// nodes of the layer, live ones, each once. Each of those names it back, as far
/// as its own list has room, and no other list changes. Where distances are
/// numbers, nothing live that is linked from the first node of its list is nearer
/// to it than that node is. While its list has room left, and the candidate pool
/// too, nothing live that is linked from its neighbors is missing from it. And its
/// list is selected from a pool of candidates.
pub open spec fn wired(b: Builder, g: Graph, h: Graph, id: int, layer: int) -> bool {
    let mine = h.nodes[id].layers[layer];
    let v = g.nodes[id].vector;
    &&& mine.no_duplicates()
    &&& forall|i: int|
        0 <= i < mine.len() ==> {
            let x = #[trigger] mine[i] as int;
            x != id && g.on_layer(x, layer) && !g.nodes[x].deleted
        }
    &&& forall|k: int|
        0 <= k < g.nodes.len() && k != id && layer < g.nodes[k].layers.len() ==> {
            let was = g.nodes[k].layers[layer];
            let now = #[trigger] h.nodes[k].layers[layer];
            &&& mine.contains(k as u32) ==> grown(b, g, k, was, now, id, g.cap(layer))
            &&& !mine.contains(k as u32) ==> now == was
        }
    &&& mine.len() > 0 && scores(b, g, v) ==> forall|j: int|
        0 <= j < g.nodes[mine[0] as int].layers[layer].len() ==> {
            let y = #[trigger] g.nodes[mine[0] as int].layers[layer][j] as int;
            !g.nodes[y].deleted ==> !f32_lt(
                (b.dist)(v, g.nodes[y].vector),
                (b.dist)(v, g.nodes[mine[0] as int].vector),
            )
        }
    &&& mine.len() < g.cap(layer) && mine.len() < g.ef_construction ==> forall|i: int, j: int|
        0 <= i < mine.len() && 0 <= j < g.nodes[mine[i] as int].layers[layer].len() ==> {
            let y = #[trigger] g.nodes[mine[i] as int].layers[layer][j];
            !g.nodes[y as int].deleted ==> mine.contains(y)
        }
    &&& exists|pool: Seq<Cand>|
        pooled(b, g, mine, list_above(h, id, layer), pool, id, layer)
}

impl Builder {
    proof fn lemma_appended_grows(self, g: Graph, n: int, id: u32, layer: int)
        requires
            g.valid(),
            layer >= 0,
            g.on_layer(n, layer),
            g.on_layer(id as int, layer),
            g.nodes[n].layers[layer].no_duplicates(),
            !g.nodes[n].layers[layer].contains(id),
        ensures
            grown(
                self,
                g,
                n,
                g.nodes[n].layers[layer],
                self.appended(g, n, id, layer),
                id as int,
                g.cap(layer),
            ),
    {
        assert(g.node_ok(n));
        let was = g.nodes[n].layers[layer];
        assert(g.list_ok(layer, was));
        let list = was.push(id);
        let cap = g.cap(layer);
        if list.len() > cap {
            let cands = self.scored(g, n, list);
            assert(distinct(cands)) by {
                assert forall|i: int, j: int|
                    0 <= i < cands.len() && 0 <= j < cands.len() && i != j implies (
                #[trigger] cands[i]).id != (#[trigger] cands[j]).id by {
                    if i < was.len() && j < was.len() {
                        assert(was[i] != was[j]);
                    } else if i < was.len() {
                        assert(was.contains(was[i]));
                    } else {
                        assert(was.contains(was[j]));
                    }
                }
            }
            let near = sorted(cands);
            lemma_sorted(cands);
            lemma_sorted(near);
            lemma_sorted_distinct(cands);
            selections_ignore_the_order(self, g, cands, near, cap);
            self.lemma_select_fills(g, cands, cap);
            self.lemma_select_fills(g, near, cap);
            self.lemma_select_members(g, cands, cap);
            let kept = self.select(g, cands, cap);
            let now = narrow(kept);
            assert(now == self.appended(g, n, id, layer));
            assert(cands =~= scored_against(self, g, n, list));
            assert forall|i: int| 0 <= i < now.len() implies {
                &&& was.contains(#[trigger] now[i]) || now[i] == id
                &&& kept[i] == now[i]
            } by {
                assert(ids_of(cands).contains(kept[i]));
                let k = choose|k: int| 0 <= k < ids_of(cands).len() && ids_of(cands)[k] == kept[i];
                assert(list[k] == now[i]);
                if k < was.len() {
                    assert(was[k] == now[i]);
                }
            }
            assert forall|i: int, j: int|
                0 <= i < now.len() && 0 <= j < now.len() && i != j implies now[i] != now[j] by {
                assert(kept[i] != kept[j]);
                assert(kept[i] == now[i] && kept[j] == now[j]);
            }
            assert forall|y: u32| #[trigger]
                was.contains(y) || y == id implies now.len() > 0 ==> !f32_lt(
                (self.dist)(g.nodes[n].vector, g.nodes[y as int].vector),
                (self.dist)(g.nodes[n].vector, g.nodes[now[0] as int].vector),
            ) by {
                if now.len() > 0 {
                    let k = if was.contains(y) {
                        choose|k: int| 0 <= k < was.len() && was[k] == y
                    } else {
                        was.len() as int
                    };
                    assert(list[k] == y);
                    let c = cands[k];
                    assert(cands.contains(c));
                    assert(near.contains(c));
                    let p = choose|p: int| 0 <= p < near.len() && near[p] == c;
                    assert(cand_le(near[0], near[p]));
                    assert(near.contains(near[0]));
                    assert(cands.contains(near[0]));
                    let q = choose|q: int| 0 <= q < cands.len() && cands[q] == near[0];
                    assert(kept[0] == near[0].id);
                    assert(now[0] == list[q]);
                    lemma_le_is_no_farther(near[0], near[p]);
                }
            }
        }
    }

    /// Linking back changes the chosen nodes' lists on that layer, and no others.
    proof fn lemma_link_back_grows(self, g: Graph, chosen: Seq<usize>, id: u32, layer: int)
        requires
            g.valid(),
            g.layered(),
            g.simple(),
            layer >= 0,
            g.on_layer(id as int, layer),
            g.all_on_layer(chosen, layer),
            chosen.no_duplicates(),
            forall|i: int|
                0 <= i < chosen.len() ==> (#[trigger] chosen[i]) != id
                    && !g.nodes[chosen[i] as int].layers[layer].contains(id),
        ensures
            forall|k: int|
                0 <= k < g.nodes.len() && chosen.contains(k as usize) ==> grown(
                    self,
                    g,
                    k,
                    g.nodes[k].layers[layer],
                    (#[trigger] self.link_back(g, chosen, id, layer).nodes[k]).layers[layer],
                    id as int,
                    g.cap(layer),
                ),
        decreases chosen.len(),
    {
        if chosen.len() > 0 {
            let head = chosen.drop_last();
            let last = chosen.len() - 1;
            let n = chosen[last] as int;
            assert forall|i: int| 0 <= i < head.len() implies (#[trigger] head[i]) != id
                && !g.nodes[head[i] as int].layers[layer].contains(id) by {
                assert(head[i] == chosen[i]);
            }
            assert(g.all_on_layer(head, layer)) by {
                assert forall|i: int| 0 <= i < head.len() implies g.on_layer(
                    #[trigger] head[i] as int,
                    layer,
                ) by {
                    assert(head[i] == chosen[i]);
                }
            }
            assert(head.no_duplicates()) by {
                assert forall|i: int, j: int|
                    0 <= i < head.len() && 0 <= j < head.len() && i != j implies head[i]
                    != head[j] by {
                    assert(chosen[i] != chosen[j]);
                }
            }
            self.lemma_link_back_grows(g, head, id, layer);
            self.lemma_link_back_simple(g, head, id, layer);
            self.lemma_link_back(g, head, id, layer);
            let h = self.link_back(g, head, id, layer);
            let after = self.link_back(g, chosen, id, layer);
            assert(g.on_layer(chosen[last] as int, layer));
            assert(!head.contains(n as usize)) by {
                if head.contains(n as usize) {
                    let i = choose|i: int| 0 <= i < head.len() && head[i] == n as usize;
                    assert(chosen[i] != chosen[last]);
                }
            }
            assert(h.nodes[n] == g.nodes[n]);
            assert(names_others(n, g.nodes[n].layers[layer]));
            assert(h.nodes[n].layers.len() == g.nodes[n].layers.len());
            assert(h.nodes[id as int].layers.len() == g.nodes[id as int].layers.len());
            self.lemma_appended_grows(h, n, id, layer);
            assert(h.cap(layer) == g.cap(layer));
            assert forall|k: int| 0 <= k < g.nodes.len() && chosen.contains(k as usize) implies
                grown(
                self,
                g,
                k,
                g.nodes[k].layers[layer],
                (#[trigger] after.nodes[k]).layers[layer],
                id as int,
                g.cap(layer),
            ) by {
                if k == n {
                    let now = self.appended(h, n, id, layer);
                    assert(after.nodes[k].layers[layer] == now);
                    lemma_same_grown(self, h, g, n, g.nodes[n].layers[layer], now, id as int, g.cap(layer));
                } else {
                    let i = choose|i: int| 0 <= i < chosen.len() && chosen[i] == k as usize;
                    assert(head[i] == k as usize);
                    assert(after.nodes[k] == h.nodes[k]);
                }
            }
        }
    }
}

/// What a build keeps of a list looks at vectors only.
proof fn lemma_same_kept(b: Builder, h: Graph, g: Graph, n: int, list: Seq<u32>, cap: nat)
    requires
        h.nodes.len() == g.nodes.len(),
        forall|k: int|
            0 <= k < h.nodes.len() ==> (#[trigger] h.nodes[k]).vector == g.nodes[k].vector,
        0 <= n < g.nodes.len(),
        forall|i: int| 0 <= i < list.len() ==> (#[trigger] list[i]) < g.nodes.len(),
    ensures
        b.select(h, scored_against(b, h, n, list), cap) == b.select(
            g,
            scored_against(b, g, n, list),
            cap,
        ),
{
    let cands = scored_against(b, h, n, list);
    let again = scored_against(b, g, n, list);
    assert forall|i: int| 0 <= i < cands.len() implies cands[i] == #[trigger] again[i] by {
        assert(list[i] < g.nodes.len());
        assert(h.nodes[list[i] as int].vector == g.nodes[list[i] as int].vector);
    }
    assert(cands =~= again);
    assert forall|i: int| 0 <= i < cands.len() implies (#[trigger] cands[i]).id
        < h.nodes.len() by {
        assert(list[i] < g.nodes.len());
    }
    b.lemma_select_same(h, g, cands, cap);
}

/// Growth looks at vectors and lists only.
proof fn lemma_same_grown(
    b: Builder,
    h: Graph,
    g: Graph,
    n: int,
    was: Seq<u32>,
    now: Seq<u32>,
    id: int,
    cap: nat,
)
    requires
        grown(b, h, n, was, now, id, cap),
        h.nodes.len() == g.nodes.len(),
        forall|k: int|
            0 <= k < h.nodes.len() ==> (#[trigger] h.nodes[k]).vector == g.nodes[k].vector,
        0 <= n < g.nodes.len(),
        0 <= id < g.nodes.len(),
        forall|i: int| 0 <= i < was.len() ==> (#[trigger] was[i]) < g.nodes.len(),
        g.nodes.len() <= Hnsw::MAX_NODES,
    ensures
        grown(b, g, n, was, now, id, cap),
{
    assert(h.nodes[n].vector == g.nodes[n].vector);
    if was.len() >= cap {
        assert forall|y: u32| #[trigger]
            was.contains(y) || y == id as u32 implies now.len() > 0 ==> !f32_lt(
            (b.dist)(g.nodes[n].vector, g.nodes[y as int].vector),
            (b.dist)(g.nodes[n].vector, g.nodes[now[0] as int].vector),
        ) by {
            if now.len() > 0 {
                assert(was.contains(now[0]) || now[0] == id as u32);
                if was.contains(y) {
                    let i = choose|i: int| 0 <= i < was.len() && was[i] == y;
                    assert(was[i] < g.nodes.len());
                }
                if was.contains(now[0]) {
                    let i = choose|i: int| 0 <= i < was.len() && was[i] == now[0];
                    assert(was[i] < g.nodes.len());
                }
                assert(h.nodes[y as int].vector == g.nodes[y as int].vector);
                assert(h.nodes[now[0] as int].vector == g.nodes[now[0] as int].vector);
            }
        }
        lemma_same_kept(b, h, g, n, was.push(id as u32), cap);
    }
}

/// A pool looks at one layer only.
proof fn lemma_same_pooled(
    b: Builder,
    g: Graph,
    g2: Graph,
    mine: Seq<u32>,
    above: Seq<u32>,
    pool: Seq<Cand>,
    id: int,
    layer: int,
)
    requires
        pooled(b, g, mine, above, pool, id, layer),
        forall|i: int| 0 <= i < above.len() ==> (#[trigger] above[i]) < g.nodes.len(),
        g.valid(),
        layer >= 0,
        g.nodes.len() == g2.nodes.len(),
        0 <= id < g.nodes.len(),
        g.cap(layer) == g2.cap(layer),
        g.ef_construction == g2.ef_construction,
        forall|k: int|
            0 <= k < g.nodes.len() ==> {
                &&& (#[trigger] g2.nodes[k]).vector == g.nodes[k].vector
                &&& g2.nodes[k].deleted == g.nodes[k].deleted
                &&& g2.nodes[k].layers.len() == g.nodes[k].layers.len()
                &&& layer < g.nodes[k].layers.len() ==> g2.nodes[k].layers[layer]
                    == g.nodes[k].layers[layer]
            },
    ensures
        pooled(b, g2, mine, above, pool, id, layer),
{
    let v = g.nodes[id].vector;
    assert(g2.nodes[id].vector == v);
    assert forall|i: int| 0 <= i < pool.len() implies {
        let c = #[trigger] pool[i];
        &&& c.id < g.nodes.len()
        &&& c.id != id && g2.on_layer(c.id as int, layer) && !g2.nodes[c.id as int].deleted
        &&& c.dist == (b.dist)(v, g2.nodes[c.id as int].vector)
    } by {
        let c = pool[i];
        assert(g.on_layer(c.id as int, layer));
        assert(g2.nodes[c.id as int].layers.len() == g.nodes[c.id as int].layers.len());
    }
    assert forall|i: int, j: int|
        0 <= i < pool.len() && 0 <= j < g2.nodes[pool[i].id as int].layers[layer].len() implies {
        let y = #[trigger] g2.nodes[pool[i].id as int].layers[layer][j];
        !g2.nodes[y as int].deleted ==> comes_before(pool, pool.len() as int, y as usize) || (
        pool.len() == g2.ef_construction && !f32_lt(
            (b.dist)(v, g2.nodes[y as int].vector),
            pool.last().dist,
        ))
    } by {
        let x = pool[i].id as int;
        assert(g.on_layer(x, layer));
        assert(g2.nodes[x].layers[layer] == g.nodes[x].layers[layer]);
        g.lemma_links_in_range(x, layer);
        assert(g.neighbors(x, layer)[j] < g.nodes.len());
        let y = g.nodes[x].layers[layer][j] as int;
        assert(g2.nodes[y].deleted == g.nodes[y].deleted);
        assert(g2.nodes[y].vector == g.nodes[y].vector);
    }
    assert forall|i: int| 0 <= i < above.len() && !g2.nodes[above[i] as int].deleted implies {
        let z = #[trigger] above[i];
        comes_before(pool, pool.len() as int, z as usize) || (pool.len() == g2.ef_construction
            && !f32_lt((b.dist)(v, g2.nodes[z as int].vector), pool.last().dist))
    } by {
        let z = above[i] as int;
        assert(above[i] < g.nodes.len());
        assert(g2.nodes[z].deleted == g.nodes[z].deleted);
        assert(g2.nodes[z].vector == g.nodes[z].vector);
    }
    assert forall|k: int| 0 <= k < g.nodes.len() implies (#[trigger] g.nodes[k]).vector
        == g2.nodes[k].vector by {
        assert(g2.nodes[k].vector == g.nodes[k].vector);
    }
    b.lemma_select_same(g, g2, pool, g.cap(layer));
}

/// A candidate that comes no later is no farther.
proof fn lemma_le_is_no_farther(a: Cand, b: Cand)
    requires
        cand_le(a, b),
    ensures
        !f32_lt(b.dist, a.dist),
{
    crate::floats::lemma_f32_value_order(b.dist, a.dist);
}

/// Every list has room for a neighbor, and every build for a candidate.
proof fn lemma_room(g: Graph, layer: int)
    requires
        g.params_ok(),
    ensures
        g.cap(layer) > 0,
        g.ef_construction > 0,
{
    degrees_do_not_vanish(g.m, g.gamma);
    degrees_do_not_vanish(2 * g.m, g.gamma);
}

/// A layer is entered from everything that node `id` is linked to above it.
spec fn leads_on(g: Graph, id: int, layer: int, eps: Seq<usize>) -> bool {
    forall|i: int|
        0 <= i < list_above(g, id, layer).len() ==> eps.contains(
            (#[trigger] list_above(g, id, layer)[i]) as usize,
        )
}

impl Builder {
    /// One layer of an insert.
    proof fn lemma_link_wires(self, g: Graph, id: int, eps: Seq<usize>, layer: int)
        requires
            g.valid(),
            g.layered(),
            g.simple(),
            layer >= 0,
            g.on_layer(id, layer),
            g.all_on_layer(eps, layer),
            g.unlinked(id, layer),
            forall|i: int| 0 <= i < eps.len() ==> (#[trigger] eps[i]) != id,
            leads_on(g, id, layer, eps),
        ensures
            ({
                let found = self.around(g, id).layer(eps, g.ef_construction, layer);
                let chosen = self.select(g, found, g.cap(layer));
                let h = self.link(g, chosen, id, layer);
                &&& wired(self, g, h, id, layer)
                &&& h.nodes[id].layers[layer].len() == chosen.len()
                &&& forall|i: int|
                    0 <= i < chosen.len() ==> {
                        &&& h.nodes[id].layers[layer][i] == #[trigger] chosen[i]
                        &&& ids_of(found).contains(chosen[i])
                    }
                &&& (exists|i: int|
                    0 <= i < eps.len() && !g.nodes[#[trigger] eps[i] as int].deleted) ==> {
                    &&& found.len() > 0
                    &&& h.nodes[id].layers[layer].len() > 0
                }
                &&& forall|i: int|
                    0 <= i < found.len() ==> !g.nodes[(#[trigger] found[i]).id as int].deleted
            }),
    {
        let w = self.around(g, id);
        let ef = g.ef_construction;
        let cap = g.cap(layer);
        let found = w.layer(eps, ef, layer);
        let chosen = self.select(g, found, cap);
        let list = narrow(chosen);
        let v = g.nodes[id].vector;
        assert forall|i: int| 0 <= i < eps.len() implies (#[trigger] eps[i]) < g.nodes.len() by {
            assert(g.on_layer(eps[i] as int, layer));
        }
        lemma_room(g, layer);
        w.lemma_layer_settles(eps, ef, layer);
        w.lemma_layer_found(eps, ef, layer, |x: int| true);
        self.lemma_found_on_layer(w, eps, ef, layer);
        self.lemma_chosen(g, id, eps, layer);
        self.lemma_select_fills(g, found, cap);
        self.lemma_select_members(g, found, cap);
        self.lemma_link(g, chosen, id, layer);
        self.lemma_link_simple(g, chosen, id, layer);
        let base = g.with_links(id, layer, list);
        let h = self.link(g, chosen, id, layer);
        assert forall|i: int| 0 <= i < chosen.len() implies {
            &&& list[i] == #[trigger] chosen[i]
            &&& chosen[i] < g.nodes.len()
        } by {
            assert(g.on_layer(chosen[i] as int, layer));
        }
        assert forall|i: int| 0 <= i < chosen.len() implies (#[trigger] chosen[i]) != id as u32
            && !base.nodes[chosen[i] as int].layers[layer].contains(id as u32) by {
            let c = chosen[i] as int;
            assert(g.on_layer(chosen[i] as int, layer));
            assert(base.nodes[c] == g.nodes[c]);
            if g.nodes[c].layers[layer].contains(id as u32) {
                let k = choose|k: int|
                    0 <= k < g.nodes[c].layers[layer].len() && g.nodes[c].layers[layer][k]
                        == id as u32;
                assert(g.nodes[c].layers[layer][k] != id);
            }
        }
        assert(base.on_layer(id, layer)) by {
            assert(base.nodes[id].layers.len() == g.nodes[id].layers.len());
        }
        self.lemma_link_back_grows(base, chosen, id as u32, layer);
        self.lemma_link_back_simple(base, chosen, id as u32, layer);
        assert(!chosen.contains(id as usize));
        assert(h.nodes[id] == base.nodes[id]);
        let mine = h.nodes[id].layers[layer];
        assert(mine == list);
        assert forall|i: int, j: int|
            0 <= i < mine.len() && 0 <= j < mine.len() && i != j implies mine[i] != mine[j] by {
            assert(chosen[i] != chosen[j]);
            assert(list[i] == chosen[i] && list[j] == chosen[j]);
        }
        assert forall|i: int| 0 <= i < mine.len() implies {
            let x = #[trigger] mine[i] as int;
            x != id && g.on_layer(x, layer) && !g.nodes[x].deleted
        } by {
            assert(list[i] == chosen[i]);
            assert(chosen[i] != id);
            assert(g.on_layer(chosen[i] as int, layer));
            assert(ids_of(found).contains(chosen[i]));
            let k = choose|k: int| 0 <= k < ids_of(found).len() && ids_of(found)[k] == chosen[i];
            let c = w.layer(eps, ef, layer)[k];
            assert(w.admissible(c.id as int));
        }
        assert forall|k: int|
            0 <= k < g.nodes.len() && k != id && layer < g.nodes[k].layers.len() implies {
            let was = g.nodes[k].layers[layer];
            let now = #[trigger] h.nodes[k].layers[layer];
            &&& mine.contains(k as u32) ==> grown(self, g, k, was, now, id, cap)
            &&& !mine.contains(k as u32) ==> now == was
        } by {
            assert(base.nodes[k] == g.nodes[k]);
            if mine.contains(k as u32) {
                let i = choose|i: int| 0 <= i < mine.len() && mine[i] == k as u32;
                assert(list[i] == chosen[i]);
                assert(chosen.contains(k as usize));
                assert(g.node_ok(k));
                assert(g.list_ok(layer, g.nodes[k].layers[layer]));
                assert(base.cap(layer) == cap);
                lemma_same_grown(
                    self,
                    base,
                    g,
                    k,
                    g.nodes[k].layers[layer],
                    h.nodes[k].layers[layer],
                    id,
                    cap,
                );
            } else {
                if chosen.contains(k as usize) {
                    let i = choose|i: int| 0 <= i < chosen.len() && chosen[i] == k as usize;
                    assert(list[i] == chosen[i]);
                    assert(mine[i] == k as u32);
                }
                assert(h.nodes[k] == base.nodes[k]);
            }
        }
        if mine.len() > 0 {
            let x = mine[0] as int;
            assert(list[0] == chosen[0]);
            assert(found.len() > 0 && chosen[0] == found[0].id);
            assert(found[0] == w.score(x));
            if scores(self, g, v) {
                assert forall|j: int| 0 <= j < g.nodes[x].layers[layer].len() implies {
                    let y = #[trigger] g.nodes[x].layers[layer][j] as int;
                    !g.nodes[y].deleted ==> !f32_lt(
                        (self.dist)(v, g.nodes[y].vector),
                        (self.dist)(v, g.nodes[x].vector),
                    )
                } by {
                    let y = g.nodes[x].layers[layer][j] as int;
                    g.lemma_links_in_range(x, layer);
                    assert(g.neighbors(found[0].id as int, layer)[j] == y);
                    if !g.nodes[y].deleted {
                        let s = w.score(y);
                        let last = found.len() - 1;
                        if found.contains(s) {
                            let p = choose|p: int| 0 <= p < found.len() && found[p] == s;
                            assert(cand_le(found[0], found[p]));
                            lemma_le_is_no_farther(found[0], found[p]);
                        } else {
                            let far = w.layer(eps, ef, layer)[last];
                            assert(far == w.score(far.id as int));
                            assert(!f32_is_nan((self.dist)(v, g.nodes[far.id as int].vector)));
                            assert(!f32_is_nan((self.dist)(v, g.nodes[x].vector)));
                            assert(cand_le(found[0], found[last]));
                            lemma_ranks_and_values(found[0].dist, far.dist);
                        }
                    }
                }
            }
        }
        if mine.len() < cap && mine.len() < ef {
            assert forall|i: int, j: int|
                0 <= i < mine.len() && 0 <= j < g.nodes[mine[i] as int].layers[layer].len() implies {
                let y = #[trigger] g.nodes[mine[i] as int].layers[layer][j];
                !g.nodes[y as int].deleted ==> mine.contains(y)
            } by {
                let y = g.nodes[mine[i] as int].layers[layer][j];
                if !g.nodes[y as int].deleted {
                    assert(list[i] == chosen[i]);
                    assert(ids_of(found).contains(chosen[i]));
                    let k = choose|k: int|
                        0 <= k < ids_of(found).len() && ids_of(found)[k] == chosen[i];
                    assert(g.on_layer(chosen[i] as int, layer));
                    assert(g.neighbors(found[k].id as int, layer)[j] == y);
                    let s = w.score(y as int);
                    assert(found.contains(s));
                    let p = choose|p: int| 0 <= p < found.len() && found[p] == s;
                    assert(chosen.contains(found[p].id));
                    let q = choose|q: int| 0 <= q < chosen.len() && chosen[q] == found[p].id;
                    assert(list[q] == chosen[q]);
                    assert(mine[q] == y);
                }
            }
        }
        assert forall|i: int| 0 <= i < found.len() implies !g.nodes[(
        #[trigger] found[i]).id as int].deleted by {
            let c = w.layer(eps, ef, layer)[i];
            assert(w.admissible(c.id as int));
        }
        let above = list_above(h, id, layer);
        assert(above == list_above(g, id, layer)) by {
            assert(h.nodes[id].layers.len() == g.nodes[id].layers.len());
        }
        assert(pooled(self, g, mine, above, found, id, layer)) by {
            assert forall|i: int| 0 <= i < above.len() && !g.nodes[above[i] as int].deleted
                implies {
                let z = #[trigger] above[i];
                comes_before(found, found.len() as int, z as usize) || (found.len() == ef
                    && !f32_lt((self.dist)(v, g.nodes[z as int].vector), found.last().dist))
            } by {
                let z = above[i];
                assert(eps.contains(z as usize));
                let q = choose|q: int| 0 <= q < eps.len() && eps[q] == z as usize;
                assert(!g.nodes[eps[q] as int].deleted);
                let s = w.score(eps[q] as int);
                if found.contains(s) {
                    let r = choose|r: int| 0 <= r < found.len() && found[r] == s;
                    assert(found[r].id == z as usize);
                }
            }
            assert forall|i: int| 0 <= i < found.len() implies {
                let c = #[trigger] found[i];
                &&& c.id != id && g.on_layer(c.id as int, layer) && !g.nodes[c.id as int].deleted
                &&& c.dist == (self.dist)(v, g.nodes[c.id as int].vector)
            } by {
                let c = w.layer(eps, ef, layer)[i];
                assert(c == w.score(c.id as int));
                assert(ids_of(found)[i] == c.id);
                assert(g.on_layer(ids_of(found)[i] as int, layer));
            }
            assert forall|i: int, j: int|
                0 <= i < found.len() && 0 <= j < g.nodes[found[i].id as int].layers[layer].len()
                    implies {
                let y = #[trigger] g.nodes[found[i].id as int].layers[layer][j];
                !g.nodes[y as int].deleted ==> comes_before(found, found.len() as int, y as usize)
                    || (found.len() == ef && !f32_lt(
                    (self.dist)(v, g.nodes[y as int].vector),
                    found.last().dist,
                ))
            } by {
                let y = g.nodes[found[i].id as int].layers[layer][j];
                assert(g.neighbors(found[i].id as int, layer)[j] == y);
                if !g.nodes[y as int].deleted {
                    let s = w.score(y as int);
                    if found.contains(s) {
                        let p = choose|p: int| 0 <= p < found.len() && found[p] == s;
                        assert(found[p].id == y as usize);
                    }
                }
            }
        }
    }
}

/// Wiring looks at one layer only.
proof fn lemma_same_wired(b: Builder, g: Graph, g2: Graph, h: Graph, h2: Graph, id: int, layer: int)
    requires
        g.valid(),
        g2.valid(),
        wired(b, g, h, id, layer),
        g.same_frame(g2),
        g.on_layer(id, layer),
        h.same_frame(g),
        layer >= 0,
        forall|k: int|
            0 <= k < g.nodes.len() && layer < g.nodes[k].layers.len() ==> {
                &&& (#[trigger] g.nodes[k]).layers[layer] == g2.nodes[k].layers[layer]
                &&& h.nodes[k].layers[layer] == h2.nodes[k].layers[layer]
            },
        list_above(h, id, layer) == list_above(h2, id, layer),
        forall|i: int|
            0 <= i < list_above(h, id, layer).len() ==> (#[trigger] list_above(h, id, layer)[i])
                < g.nodes.len(),
    ensures
        wired(b, g2, h2, id, layer),
{
    let mine = h.nodes[id].layers[layer];
    let v = g.nodes[id].vector;
    assert(h2.nodes[id].layers[layer] == mine);
    assert(g2.nodes[id].vector == v);
    assert(g.cap(layer) == g2.cap(layer));
    assert forall|k: int| 0 <= k < g.nodes.len() implies g.on_layer(k, layer) == #[trigger] g2.on_layer(
        k,
        layer,
    ) && g.nodes[k].vector == g2.nodes[k].vector && g.nodes[k].deleted == g2.nodes[k].deleted by {
        assert(g.nodes[k].layers.len() == g2.nodes[k].layers.len());
    }
    assert forall|i: int| 0 <= i < mine.len() implies {
        let x = #[trigger] mine[i] as int;
        x != id && g2.on_layer(x, layer) && !g2.nodes[x].deleted
    } by {
        let x = mine[i] as int;
        assert(g.on_layer(x, layer));
        assert(g2.on_layer(x, layer));
    }
    assert forall|k: int|
        0 <= k < g2.nodes.len() && k != id && layer < g2.nodes[k].layers.len() implies {
        let was = g2.nodes[k].layers[layer];
        let now = #[trigger] h2.nodes[k].layers[layer];
        &&& mine.contains(k as u32) ==> grown(b, g2, k, was, now, id, g2.cap(layer))
        &&& !mine.contains(k as u32) ==> now == was
    } by {
        assert(g.nodes[k].layers.len() == g2.nodes[k].layers.len());
        assert(h.nodes[k].layers[layer] == h2.nodes[k].layers[layer]);
        if mine.contains(k as u32) {
            assert(g.node_ok(k));
            assert(g.list_ok(layer, g.nodes[k].layers[layer]));
            lemma_same_grown(
                b,
                g,
                g2,
                k,
                g.nodes[k].layers[layer],
                h.nodes[k].layers[layer],
                id,
                g.cap(layer),
            );
        }
    }
    if scores(b, g2, v) {
        assert(scores(b, g, v)) by {
            assert forall|k: int| 0 <= k < g.nodes.len() implies !f32_is_nan(
                (b.dist)(v, (#[trigger] g.nodes[k]).vector),
            ) by {
                assert(g2.on_layer(k, layer) == g.on_layer(k, layer));
                assert(g2.nodes[k].vector == g.nodes[k].vector);
            }
        }
    }
    if mine.len() > 0 && scores(b, g2, v) {
        let x = mine[0] as int;
        assert(g.on_layer(x, layer));
        assert(g.nodes[x].layers[layer] == g2.nodes[x].layers[layer]);
        assert forall|j: int| 0 <= j < g2.nodes[x].layers[layer].len() implies {
            let y = #[trigger] g2.nodes[x].layers[layer][j] as int;
            !g2.nodes[y].deleted ==> !f32_lt(
                (b.dist)(v, g2.nodes[y].vector),
                (b.dist)(v, g2.nodes[x].vector),
            )
        } by {
            g.lemma_links_in_range(x, layer);
            assert(g.neighbors(x, layer)[j] < g.nodes.len());
            let y = g.nodes[x].layers[layer][j] as int;
            assert(g2.on_layer(y, layer) == g.on_layer(y, layer));
            assert(g2.on_layer(x, layer) == g.on_layer(x, layer));
        }
    }
    if mine.len() < g2.cap(layer) && mine.len() < g2.ef_construction {
        assert forall|i: int, j: int|
            0 <= i < mine.len() && 0 <= j < g2.nodes[mine[i] as int].layers[layer].len() implies {
            let y = #[trigger] g2.nodes[mine[i] as int].layers[layer][j];
            !g2.nodes[y as int].deleted ==> mine.contains(y)
        } by {
            let x = mine[i] as int;
            assert(g.on_layer(x, layer));
            assert(g.nodes[x].layers[layer] == g2.nodes[x].layers[layer]);
            g.lemma_links_in_range(x, layer);
            assert(g.neighbors(x, layer)[j] < g.nodes.len());
            let y = g.nodes[x].layers[layer][j] as int;
            assert(g2.on_layer(y, layer) == g.on_layer(y, layer));
        }
    }
    let above = list_above(h, id, layer);
    let pool = choose|pool: Seq<Cand>| pooled(b, g, mine, above, pool, id, layer);
    lemma_same_pooled(b, g, g2, mine, above, pool, id, layer);
}

/// Lists name nodes.
proof fn lemma_above_in_range(h: Graph, id: int, layer: int)
    requires
        h.valid(),
        0 <= id < h.nodes.len(),
        layer >= -1,
    ensures
        forall|i: int|
            0 <= i < list_above(h, id, layer).len() ==> (#[trigger] list_above(h, id, layer)[i])
                < h.nodes.len(),
{
    h.lemma_links_in_range(id, layer + 1);
    if layer + 1 < h.nodes[id].layers.len() {
        assert(h.neighbors(id, layer + 1) == h.nodes[id].layers[layer + 1]);
    }
}

impl Builder {
    /// An insert wires a node into every layer from `layer` down, and leaves the
    /// lists above alone.
    proof fn lemma_connect_wires(
        self,
        g: Graph,
        id: int,
        eps: Seq<usize>,
        entry: usize,
        layer: int,
    )
        requires
            g.valid(),
            g.layered(),
            g.simple(),
            g.on_layer(id, layer),
            g.all_on_layer(eps, layer),
            g.on_layer(entry as int, layer),
            g.unlinked(id, layer),
            forall|i: int| 0 <= i < eps.len() ==> (#[trigger] eps[i]) != id,
            entry != id,
            leads_on(g, id, layer, eps),
        ensures
            ({
                let h = self.connect(g, id, eps, entry, layer);
                &&& h.same_frame(g)
                &&& h.valid()
                &&& forall|l: int| 0 <= l <= layer ==> #[trigger] wired(self, g, h, id, l)
                &&& forall|k: int, l: int|
                    0 <= k < g.nodes.len() && layer < l < g.nodes[k].layers.len() && l >= 0 ==> (
                    #[trigger] h.nodes[k].layers[l]) == g.nodes[k].layers[l]
                &&& (exists|i: int|
                    0 <= i < eps.len() && !g.nodes[#[trigger] eps[i] as int].deleted)
                    ==> forall|l: int|
                    0 <= l <= layer ==> (#[trigger] h.nodes[id].layers[l]).len() > 0
            }),
        decreases layer + 1,
    {
        if layer >= 0 {
            let w = self.around(g, id);
            let found = w.layer(eps, g.ef_construction, layer);
            let chosen = self.select(g, found, g.cap(layer));
            self.lemma_found_on_layer(w, eps, g.ef_construction, layer);
            self.lemma_chosen(g, id, eps, layer);
            self.lemma_link(g, chosen, id, layer);
            self.lemma_link_simple(g, chosen, id, layer);
            self.lemma_link_wires(g, id, eps, layer);
            let mid = self.link(g, chosen, id, layer);
            let next = if found.len() == 0 {
                seq![entry]
            } else {
                ids_of(found)
            };
            lemma_next_entry(g, mid, found, entry, layer);
            assert forall|i: int| 0 <= i < next.len() implies (#[trigger] next[i]) != id by {
                if found.len() > 0 {
                    assert(found[i].id != id);
                }
            }
            assert(leads_on(mid, id, layer - 1, next)) by {
                let mine = mid.nodes[id].layers[layer];
                assert(list_above(mid, id, layer - 1) == mine);
                assert forall|i: int| 0 <= i < mine.len() implies next.contains(
                    (#[trigger] mine[i]) as usize,
                ) by {
                    assert(ids_of(found).contains(chosen[i]));
                    assert(mine[i] == chosen[i]);
                }
            }
            self.lemma_connect_wires(mid, id, next, entry, layer - 1);
            let h = self.connect(g, id, eps, entry, layer);
            assert(h == self.connect(mid, id, next, entry, layer - 1));
            assert forall|k: int| 0 <= k < g.nodes.len() implies (
            #[trigger] mid.nodes[k]).layers.len() == g.nodes[k].layers.len() by {}
            assert forall|l: int| 0 <= l <= layer implies #[trigger] wired(self, g, h, id, l) by {
                if l < layer {
                    assert(wired(self, mid, h, id, l));
                    assert forall|k: int|
                        0 <= k < mid.nodes.len() && l < mid.nodes[k].layers.len() implies {
                        &&& (#[trigger] mid.nodes[k]).layers[l] == g.nodes[k].layers[l]
                        &&& h.nodes[k].layers[l] == h.nodes[k].layers[l]
                    } by {
                        assert(mid.nodes[k].layers[l] == g.nodes[k].layers[l]);
                    }
                    lemma_above_in_range(h, id, l);
                    lemma_same_wired(self, mid, g, h, h, id, l);
                } else {
                    assert(wired(self, g, mid, id, l));
                    assert forall|k: int|
                        0 <= k < g.nodes.len() && l < g.nodes[k].layers.len() implies {
                        &&& (#[trigger] g.nodes[k]).layers[l] == g.nodes[k].layers[l]
                        &&& mid.nodes[k].layers[l] == h.nodes[k].layers[l]
                    } by {
                        assert(mid.nodes[k].layers.len() == g.nodes[k].layers.len());
                        assert(h.nodes[k].layers[l] == mid.nodes[k].layers[l]);
                    }
                    assert(list_above(mid, id, l) == list_above(h, id, l)) by {
                        assert(h.nodes[id].layers.len() == mid.nodes[id].layers.len());
                        if l + 1 < h.nodes[id].layers.len() {
                            assert(h.nodes[id].layers[l + 1] == mid.nodes[id].layers[l + 1]);
                        }
                    }
                    lemma_above_in_range(mid, id, l);
                    lemma_same_wired(self, g, g, mid, h, id, l);
                }
            }
            assert forall|k: int, l: int|
                0 <= k < g.nodes.len() && layer < l < g.nodes[k].layers.len() && l >= 0 implies (
            #[trigger] h.nodes[k].layers[l]) == g.nodes[k].layers[l] by {
                assert(mid.nodes[k].layers.len() == g.nodes[k].layers.len());
                assert(h.nodes[k].layers[l] == mid.nodes[k].layers[l]);
                assert(mid.nodes[k].layers[l] == g.nodes[k].layers[l]);
            }
            if exists|i: int| 0 <= i < eps.len() && !g.nodes[#[trigger] eps[i] as int].deleted {
                assert(found.len() > 0);
                assert(!g.nodes[found[0].id as int].deleted);
                assert(next[0] == found[0].id);
                assert(g.on_layer(ids_of(found)[0] as int, layer));
                assert(!mid.nodes[next[0] as int].deleted);
                assert forall|l: int| 0 <= l <= layer implies (
                #[trigger] h.nodes[id].layers[l]).len() > 0 by {
                    if l == layer {
                        assert(h.nodes[id].layers[l] == mid.nodes[id].layers[l]);
                    }
                }
            }
        }
    }
}

/// What an insert does to the neighbor lists, layer by layer: on every layer that
/// the new node shares with the graph it is wired in; its lists above are empty;
/// and lists on layers above its own stay as they were. If the entry point is
/// live, the new node has a neighbor on every layer it shares.
pub proof fn inserts_wire_the_node_in(
    b: Builder,
    g: Graph,
    vector: Seq<u32>,
    attrs: Seq<AttrValue>,
    layer: int,
)
    requires
        g.valid(),
        g.layered(),
        g.simple(),
        b.insert_result(g, vector) is Ok,
        layer >= 0,
    ensures
        ({
            let id = g.nodes.len() as int;
            let h = b.inserted(g, vector, attrs);
            let top = h.nodes[id].layers.len() - 1;
            let blank = g.with_node(vector, attrs, (top + 1) as nat);
            &&& layer <= top && g.entry_point is Some && layer <= g.max_layer ==> wired(
                b,
                blank,
                h,
                id,
                layer,
            )
            &&& layer <= top && (g.entry_point is None || layer > g.max_layer)
                ==> h.nodes[id].layers[layer].len() == 0
            &&& forall|k: int|
                0 <= k < id && layer < g.nodes[k].layers.len() && layer > top ==> (
                #[trigger] h.nodes[k].layers[layer]) == g.nodes[k].layers[layer]
            &&& layer <= top && layer <= g.max_layer && g.entry_point is Some
                && !g.nodes[g.entry_point->0 as int].deleted ==> h.nodes[id].layers[layer].len() > 0
        }),
{
    let id = g.nodes.len() as int;
    let h = b.inserted(g, vector, attrs);
    let level = b.next_level(g);
    let with = b.placed(b.drawn(g, vector.len()), vector, attrs, level);
    b.lemma_inserted(g, vector, attrs);
    b.lemma_placed_unlinked(g, vector, attrs, g.max_layer as int);
    assert(h.nodes[id].layers.len() == with.nodes[id].layers.len());
    let top = h.nodes[id].layers.len() - 1;
    assert(top == level);
    let blank = g.with_node(vector, attrs, (top + 1) as nat);
    assert(with.nodes == blank.nodes);
    match g.entry_point {
        None => {
            assert(h == with);
        },
        Some(e) => {
            lemma_entry_for_insert(b, g, vector, attrs);
            let w = b.around(with, id);
            let eps = w.descend(seq![e], g.max_layer as int, level as int + 1);
            b.lemma_descend_elsewhere(w, seq![e], g.max_layer as int, level as int + 1, id);
            let from = if level < g.max_layer {
                level as int
            } else {
                g.max_layer as int
            };
            assert(with.unlinked(id, from));
            assert(leads_on(with, id, from, eps)) by {
                assert(list_above(with, id, from).len() == 0);
            }
            b.lemma_connect_wires(with, id, eps, e, from);
            if layer <= top && layer <= g.max_layer {
                assert(wired(b, with, h, id, layer));
                lemma_blank_wired(b, with, blank, h, id, layer);
                if !g.nodes[e as int].deleted {
                    assert(!with.nodes[e as int].deleted);
                    b.lemma_descend_stays_live(w, e, g.max_layer as int, level as int + 1);
                    assert(!with.nodes[eps[0] as int].deleted);
                }
            }
            if layer > from {
                if layer <= top {
                    assert(h.nodes[id].layers[layer] == with.nodes[id].layers[layer]);
                }
                assert forall|k: int|
                    0 <= k < id && layer < g.nodes[k].layers.len() && layer > top implies (
                #[trigger] h.nodes[k].layers[layer]) == g.nodes[k].layers[layer] by {
                    assert(with.nodes[k] == g.nodes[k]);
                    assert(h.nodes[k].layers[layer] == with.nodes[k].layers[layer]);
                }
            }
        },
    }
}

/// Wiring does not look at the entry point or the generator.
proof fn lemma_blank_wired(b: Builder, g: Graph, g2: Graph, h: Graph, id: int, layer: int)
    requires
        wired(b, g, h, id, layer),
        g.valid(),
        h.valid(),
        h.nodes.len() == g.nodes.len(),
        layer >= 0,
        0 <= id < g.nodes.len(),
        g.nodes == g2.nodes,
        g.m == g2.m,
        g.gamma == g2.gamma,
        g.ef_construction == g2.ef_construction,
    ensures
        wired(b, g2, h, id, layer),
{
    assert(g.cap(layer) == g2.cap(layer));
    assert forall|k: int| g.on_layer(k, layer) == #[trigger] g2.on_layer(k, layer) by {}
    assert(scores(b, g2, g.nodes[id].vector) ==> scores(b, g, g.nodes[id].vector));
    assert forall|k: int|
        0 <= k < g2.nodes.len() && k != id && layer < g2.nodes[k].layers.len() implies {
        let was = g2.nodes[k].layers[layer];
        let now = #[trigger] h.nodes[k].layers[layer];
        &&& h.nodes[id].layers[layer].contains(k as u32) ==> grown(
            b,
            g2,
            k,
            was,
            now,
            id,
            g2.cap(layer),
        )
        &&& !h.nodes[id].layers[layer].contains(k as u32) ==> now == was
    } by {
        if h.nodes[id].layers[layer].contains(k as u32) {
            assert(g.node_ok(k));
            assert(g.list_ok(layer, g.nodes[k].layers[layer]));
            lemma_same_grown(
                b,
                g,
                g2,
                k,
                g.nodes[k].layers[layer],
                h.nodes[k].layers[layer],
                id,
                g.cap(layer),
            );
        }
    }
    let mine = h.nodes[id].layers[layer];
    let above = list_above(h, id, layer);
    let pool = choose|pool: Seq<Cand>| pooled(b, g, mine, above, pool, id, layer);
    lemma_above_in_range(h, id, layer);
    lemma_same_pooled(b, g, g2, mine, above, pool, id, layer);
}

impl Builder {
    /// A descent that starts on a live node ends on one.
    proof fn lemma_descend_stays_live(self, w: Walk, e: usize, top: int, bottom: int)
        requires
            w.filter is None,
            w.graph.valid(),
            e < w.graph.nodes.len(),
            !w.graph.nodes[e as int].deleted,
        ensures
            w.descend(seq![e], top, bottom).len() == 1,
            w.descend(seq![e], top, bottom)[0] < w.graph.nodes.len(),
            !w.graph.nodes[w.descend(seq![e], top, bottom)[0] as int].deleted,
        decreases top - bottom + 1,
    {
        if top >= bottom {
            let found = w.layer(seq![e], 1, top);
            w.lemma_layer_settles(seq![e], 1, top);
            w.lemma_layer_found(seq![e], 1, top, |x: int| true);
            assert(!w.graph.nodes[seq![e][0] as int].deleted);
            let c = w.layer(seq![e], 1, top)[0];
            assert(w.admissible(c.id as int));
            self.lemma_descend_stays_live(w, found[0].id, top - 1, bottom);
        }
    }
}

/// Where a new node's level, and the state of the generator, come from: one step
/// of the generator, whose top 53 bits and the base degree are handed to the level
/// function. A node above the top layer, or the first one, becomes the entry
/// point; any other leaves it as it was.
pub proof fn levels_come_from_the_generator<
    K: Fn(Kernel, &[u32], &[u32]) -> u32,
    L: Fn(u64, usize) -> usize,
>(
    h: &Hnsw,
    kernel: K,
    level: L,
    vector: Seq<u32>,
    attrs: Seq<AttrValue>,
    a: u64,
    c: u64,
    next: u64,
    l: usize,
)
    requires
        h.wf(),
        level_ok(level),
        h.builder(kernel, level).insert_result(h@, vector) is Ok,
        a == h@.rng ^ (h@.rng << 13u64),
        c == a ^ (a >> 7u64),
        next == c ^ (c << 17u64),
        call_ensures(level, (next >> 11u64, h@.m as usize), l),
    ensures
        ({
            let after = h.builder(kernel, level).inserted(h@, vector, attrs);
            let id = h@.nodes.len();
            &&& after.rng == next
            &&& after.nodes.len() == id + 1
            &&& after.nodes[id as int].layers.len() == l + 1
            &&& id == 0 || l > h@.max_layer ==> after.entry_point == Some(id as usize)
                && after.max_layer == l
            &&& id > 0 && l <= h@.max_layer ==> after.entry_point == h@.entry_point
                && after.max_layer == h@.max_layer
            &&& after.metric == h@.metric && after.m == h@.m && after.gamma == h@.gamma
                && after.ef_construction == h@.ef_construction && after.seed == h@.seed
                && after.dim == vector.len()
        }),
{
    let b = h.builder(kernel, level);
    b.lemma_inserted(h@, vector, attrs);
    assert(call_ensures(
        level,
        (next >> 11u64, h@.m as usize),
        level_value(level, next >> 11u64, h@.m as usize),
    ));
    assert(xorshift(h@.rng) == next);
    assert(b.next_level(h@) == l);
    let with = b.placed(b.drawn(h@, vector.len()), vector, attrs, b.next_level(h@));
    let after = b.inserted(h@, vector, attrs);
    assert(after.same_frame(with));
    assert(after.nodes[h@.nodes.len() as int].layers.len() == with.nodes[h@.nodes.len() as int].layers.len());
}

/// When an insert is refused, and with what: a vector without components, one
/// with more than 16000, or one of another length than the graph's; and any
/// vector once ids run out. A refused vector leaves the graph as it was.
pub proof fn refusals(b: Builder, g: Graph, vector: Seq<u32>, attrs: Seq<AttrValue>)
    requires
        g.valid(),
    ensures
        vector.len() == 0 ==> b.insert_result(g, vector) == Err::<usize, HnswError>(
            HnswError::EmptyVector,
        ),
        vector.len() > 16_000 ==> b.insert_result(g, vector) == Err::<usize, HnswError>(
            HnswError::DimensionTooLarge { got: vector.len() as usize, max: 16_000 },
        ),
        1 <= vector.len() <= 16_000 && g.nodes.len() > 0 && vector.len() != g.dim
            ==> b.insert_result(g, vector) == Err::<usize, HnswError>(
            HnswError::DimensionMismatch {
                expected: g.dim as usize,
                got: vector.len() as usize,
            },
        ),
        1 <= vector.len() <= 16_000 && (g.dim == 0 || vector.len() == g.dim) && g.nodes.len()
            < 0xffff_ffff ==> b.insert_result(g, vector) == Ok::<usize, HnswError>(
            g.nodes.len() as usize,
        ),
        1 <= vector.len() <= 16_000 && (g.dim == 0 || vector.len() == g.dim) && g.nodes.len()
            >= 0xffff_ffff ==> b.insert_result(g, vector) == Err::<usize, HnswError>(
            HnswError::NodeLimitReached { limit: 0xffff_ffff },
        ),
        vector.len() == 0 || vector.len() > 16_000 || (g.dim != 0 && vector.len() != g.dim)
            ==> b.inserted(g, vector, attrs) == g,
{
}

/// There is room for a node as long as the machine can index what is stored: no
/// more layers in all than 32 bits count, and no more components or link slots
/// than a machine word does.
pub proof fn room_lasts_as_far_as_the_machine(b: Builder, g: Graph, vector: Seq<u32>)
    requires
        g.valid(),
        g.layer_total() + b.next_level(g) < 0xffff_ffff,
        (g.nodes.len() + 1) * vector.len() <= usize::MAX,
        (g.nodes.len() + 1) * (g.cap(0) + 1) + (g.layer_total() + b.next_level(g)
            - g.nodes.len()) * (g.cap(1) + 1) <= usize::MAX,
        g.cap(0) < 0xffff_ffff,
        g.cap(1) < 0xffff_ffff,
    ensures
        b.has_room(g, vector),
{
}

} // verus!
