//! Building a graph: level draws, neighbor selection, insertion, compaction.

use super::beam::{sort, sorted, Cand};
use super::graph::{fits, Graph, Hnsw, Node};
use super::params::{HnswError, HnswParams};
use super::search::{distances, Walk};
use crate::distance::{kernel_ok, Kernel};
use crate::filter::AttrValue;
use crate::floats::{f32_less, f32_lt};
use vstd::prelude::*;
use vstd::slice::slice_to_vec;

verus! {

/// One step of the xorshift generator.
pub open spec fn xorshift(x: u64) -> u64 {
    let a = x ^ (x << 13u64);
    let b = a ^ (a >> 7u64);
    b ^ (b << 17u64)
}

/// Advance the generator and return its new state.
pub fn xorshift64(state: &mut u64) -> (r: u64)
    ensures
        r == xorshift(*old(state)),
        *final(state) == r,
{
    let x: u64 = *state;
    let a: u64 = x ^ (x << 13u64);
    let b: u64 = a ^ (a >> 7u64);
    let c: u64 = b ^ (b << 17u64);
    *state = c;
    c
}

/// A generator that starts from a nonzero state never reaches zero.
pub proof fn xorshift_stays_nonzero(x: u64)
    requires
        x != 0,
    ensures
        xorshift(x) != 0,
{
    assert(x ^ (x << 13u64) != 0) by (bit_vector)
        requires
            x != 0,
    ;
    let a = x ^ (x << 13u64);
    assert(a ^ (a >> 7u64) != 0) by (bit_vector)
        requires
            a != 0,
    ;
    let b = a ^ (a >> 7u64);
    assert(b ^ (b << 17u64) != 0) by (bit_vector)
        requires
            b != 0,
    ;
}

/// A level function answers every question, and always the same way.
///
/// It turns 53 uniform bits and the base degree into a node's top layer. The
/// logarithm behind it is floating point, so it comes from the caller.
pub open spec fn level_ok<L: Fn(u64, usize) -> usize>(level: L) -> bool {
    &&& forall|draw: u64, m: usize| #[trigger] call_requires(level, (draw, m))
    &&& forall|draw: u64, m: usize, a: usize, b: usize| #[trigger]
        call_ensures(level, (draw, m), a) && #[trigger] call_ensures(level, (draw, m), b) ==> a
            == b
}

/// What `level` answers.
pub open spec fn level_value<L: Fn(u64, usize) -> usize>(level: L, draw: u64, m: usize) -> usize {
    choose|l: usize| call_ensures(level, (draw, m), l)
}

/// The level draws a level function makes.
pub open spec fn draws<L: Fn(u64, usize) -> usize>(level: L) -> spec_fn(u64, nat) -> nat {
    |draw: u64, m: nat| level_value(level, draw, m as usize) as nat
}

/// What a build takes from outside: distances and level draws.
pub struct Builder {
    pub dist: spec_fn(Seq<u32>, Seq<u32>) -> u32,
    pub level: spec_fn(u64, nat) -> nat,
}

/// Ids as stored in neighbor lists.
pub open spec fn narrow(ids: Seq<usize>) -> Seq<u32> {
    Seq::new(ids.len(), |i: int| ids[i] as u32)
}

/// Node ids of candidates.
pub open spec fn ids_of(found: Seq<Cand>) -> Seq<usize> {
    Seq::new(found.len(), |i: int| found[i].id)
}

impl Builder {
    /// `c` is no farther from the base than from any node already selected.
    pub open spec fn diverse_from(self, g: Graph, c: Cand, selected: Seq<usize>) -> bool {
        forall|i: int|
            0 <= i < selected.len() ==> !f32_lt(
                (self.dist)(g.nodes[c.id as int].vector, g.nodes[#[trigger] selected[i] as int].vector),
                c.dist,
            )
    }

    /// The first up to `m` candidates that are diverse from those before them.
    pub open spec fn diverse(self, g: Graph, cands: Seq<Cand>, m: nat) -> Seq<usize>
        decreases cands.len(),
    {
        if cands.len() == 0 {
            Seq::empty()
        } else {
            let before = self.diverse(g, cands.drop_last(), m);
            if before.len() < m && self.diverse_from(g, cands.last(), before) {
                before.push(cands.last().id)
            } else {
                before
            }
        }
    }

    /// A selection topped up to `m` with the nearest candidates it lacks.
    pub open spec fn backfill(self, cands: Seq<Cand>, selected: Seq<usize>, m: nat) -> Seq<usize>
        decreases cands.len(),
    {
        if cands.len() == 0 {
            selected
        } else {
            let before = self.backfill(cands.drop_last(), selected, m);
            if before.len() < m && !before.contains(cands.last().id) {
                before.push(cands.last().id)
            } else {
                before
            }
        }
    }

    /// The neighbors chosen from candidates: nearest first, those closer to the
    /// base than to any neighbor already chosen, then the nearest left over, up
    /// to `m`.
    pub open spec fn select(self, g: Graph, cands: Seq<Cand>, m: nat) -> Seq<usize> {
        let near = sorted(cands);
        self.backfill(near, self.diverse(g, near, m), m)
    }

    /// The candidates a neighbor list offers: its nodes, scored against `base`.
    pub open spec fn scored(self, g: Graph, base: int, list: Seq<u32>) -> Seq<Cand> {
        Seq::new(
            list.len(),
            |i: int|
                Cand {
                    dist: (self.dist)(g.nodes[base].vector, g.nodes[list[i] as int].vector),
                    id: list[i] as usize,
                },
        )
    }

    /// A neighbor list with `id` appended, pruned when that overfills it.
    pub open spec fn appended(self, g: Graph, n: int, id: u32, layer: int) -> Seq<u32> {
        let list = g.nodes[n].layers[layer].push(id);
        if list.len() > g.cap(layer) {
            narrow(self.select(g, self.scored(g, n, list), g.cap(layer)))
        } else {
            list
        }
    }

    /// The graph with `id` linked back from each chosen neighbor in turn.
    pub open spec fn link_back(self, g: Graph, chosen: Seq<usize>, id: u32, layer: int) -> Graph
        decreases chosen.len(),
    {
        if chosen.len() == 0 {
            g
        } else {
            let h = self.link_back(g, chosen.drop_last(), id, layer);
            let n = chosen.last() as int;
            h.with_links(n, layer, self.appended(h, n, id, layer))
        }
    }

    /// The graph with `id` linked to its chosen neighbors and back.
    pub open spec fn link(self, g: Graph, chosen: Seq<usize>, id: int, layer: int) -> Graph {
        self.link_back(g.with_links(id, layer, narrow(chosen)), chosen, id as u32, layer)
    }

    /// The search for node `id`'s own vector.
    pub open spec fn around(self, g: Graph, id: int) -> Walk {
        Walk { graph: g, dist: self.dist, query: g.nodes[id].vector, filter: None }
    }

    /// The graph with node `id` connected on every layer from `layer` down, or as
    /// far down as the chosen neighbors take part in their layer.
    pub open spec fn connect(
        self,
        g: Graph,
        id: int,
        eps: Seq<usize>,
        entry: usize,
        layer: int,
    ) -> Graph
        decreases layer + 1,
    {
        if layer < 0 {
            g
        } else {
            let found = self.around(g, id).layer(eps, g.ef_construction, layer);
            let chosen = self.select(g, found, g.cap(layer));
            if !g.all_on_layer(chosen, layer) {
                g
            } else {
                self.connect(
                    self.link(g, chosen, id, layer),
                    id,
                    if found.len() == 0 {
                        seq![entry]
                    } else {
                        ids_of(found)
                    },
                    entry,
                    layer - 1,
                )
            }
        }
    }

    /// Connecting node `id` from `layer` down comes to choose a neighbor on a
    /// layer that the neighbor does not take part in.
    pub open spec fn strays_below(
        self,
        g: Graph,
        id: int,
        eps: Seq<usize>,
        entry: usize,
        layer: int,
    ) -> bool
        decreases layer + 1,
    {
        if layer < 0 {
            false
        } else {
            let found = self.around(g, id).layer(eps, g.ef_construction, layer);
            let chosen = self.select(g, found, g.cap(layer));
            !g.all_on_layer(chosen, layer) || self.strays_below(
                self.link(g, chosen, id, layer),
                id,
                if found.len() == 0 {
                    seq![entry]
                } else {
                    ids_of(found)
                },
                entry,
                layer - 1,
            )
        }
    }

    /// Inserting `vector` comes to choose a neighbor on a layer that the neighbor
    /// does not take part in. Only a graph with links that leave their layer has
    /// such inserts.
    pub open spec fn strays(self, g: Graph, vector: Seq<u32>, attrs: Seq<AttrValue>) -> bool {
        let level = self.next_level(g);
        let with = self.placed(self.drawn(g, vector.len()), vector, attrs, level);
        let id = g.nodes.len() as int;
        &&& self.insert_result(g, vector) is Ok
        &&& g.entry_point matches Some(e) && self.strays_below(
            with,
            id,
            self.around(with, id).descend(seq![e], g.max_layer as int, level as int + 1),
            e,
            if level < g.max_layer {
                level as int
            } else {
                g.max_layer as int
            },
        )
    }

    /// The level the next insert draws.
    pub open spec fn next_level(self, g: Graph) -> nat {
        (self.level)(xorshift(g.rng) >> 11u64, g.m)
    }

    /// The graph after the first steps of an insert: the dimensionality is fixed
    /// and the level generator has advanced.
    pub open spec fn drawn(self, g: Graph, dim: nat) -> Graph {
        Graph { dim, rng: xorshift(g.rng), ..g }
    }

    /// The graph with the new node in place but unconnected. A node above the
    /// top layer becomes the entry point.
    pub open spec fn placed(
        self,
        g: Graph,
        vector: Seq<u32>,
        attrs: Seq<AttrValue>,
        level: nat,
    ) -> Graph {
        let with = g.with_node(vector, attrs, level + 1);
        if g.entry_point is None || level > g.max_layer {
            Graph { entry_point: Some(g.nodes.len() as usize), max_layer: level, ..with }
        } else {
            with
        }
    }

    /// Why a vector is refused, if it is.
    pub open spec fn refusal(self, g: Graph, vector: Seq<u32>) -> Option<HnswError> {
        if vector.len() == 0 {
            Some(HnswError::EmptyVector)
        } else if vector.len() > HnswParams::MAX_DIM {
            Some(
                HnswError::DimensionTooLarge {
                    got: vector.len() as usize,
                    max: HnswParams::MAX_DIM,
                },
            )
        } else if g.dim != 0 && vector.len() != g.dim {
            Some(
                HnswError::DimensionMismatch {
                    expected: g.dim as usize,
                    got: vector.len() as usize,
                },
            )
        } else {
            None
        }
    }

    /// What an insert answers.
    pub open spec fn insert_result(self, g: Graph, vector: Seq<u32>) -> Result<usize, HnswError> {
        match self.refusal(g, vector) {
            Some(e) => Err(e),
            None => if g.nodes.len() >= Hnsw::MAX_NODES {
                Err(HnswError::NodeLimitReached { limit: Hnsw::MAX_NODES })
            } else {
                Ok(g.nodes.len() as usize)
            },
        }
    }

    /// What an insert makes of the graph.
    pub open spec fn inserted(self, g: Graph, vector: Seq<u32>, attrs: Seq<AttrValue>) -> Graph {
        if self.refusal(g, vector) is Some {
            g
        } else {
            let ready = self.drawn(g, vector.len());
            if g.nodes.len() >= Hnsw::MAX_NODES {
                ready
            } else {
                let level = self.next_level(g);
                let with = self.placed(ready, vector, attrs, level);
                match g.entry_point {
                    None => with,
                    Some(e) => {
                        let id = g.nodes.len() as int;
                        let eps = self.around(with, id).descend(
                            seq![e],
                            g.max_layer as int,
                            level as int + 1,
                        );
                        self.connect(
                            with,
                            id,
                            eps,
                            e,
                            if level < g.max_layer {
                                level as int
                            } else {
                                g.max_layer as int
                            },
                        )
                    },
                }
            }
        }
    }

    /// Inserting `vector` next fits the machine: 32-bit layer offsets and
    /// neighbor counts, and array lengths in `usize`. A refused vector always
    /// does.
    pub open spec fn has_room(self, g: Graph, vector: Seq<u32>) -> bool {
        self.insert_result(g, vector) is Ok ==> {
            &&& fits(
                g.nodes.len() + 1,
                g.layer_total() + self.next_level(g) + 1,
                vector.len(),
                g.cap(0),
                g.cap(1),
            )
            &&& g.cap(0) < u32::MAX
            &&& g.cap(1) < u32::MAX
        }
    }
}

impl Builder {
    pub(crate) proof fn lemma_diverse_members(self, g: Graph, cands: Seq<Cand>, m: nat)
        ensures
            self.diverse(g, cands, m).len() <= m,
            forall|i: int|
                0 <= i < self.diverse(g, cands, m).len() ==> ids_of(cands).contains(
                    #[trigger] self.diverse(g, cands, m)[i],
                ),
        decreases cands.len(),
    {
        if cands.len() > 0 {
            let head = cands.drop_last();
            self.lemma_diverse_members(g, head, m);
            let all = self.diverse(g, cands, m);
            let before = self.diverse(g, head, m);
            assert forall|i: int| 0 <= i < all.len() implies ids_of(cands).contains(
                #[trigger] all[i],
            ) by {
                if i < before.len() {
                    assert(all[i] == before[i]);
                    let k = choose|k: int|
                        0 <= k < ids_of(head).len() && ids_of(head)[k] == before[i];
                    assert(ids_of(cands)[k] == all[i]);
                } else {
                    assert(ids_of(cands)[cands.len() - 1] == all[i]);
                }
            }
        }
    }

    proof fn lemma_backfill_members(self, cands: Seq<Cand>, selected: Seq<usize>, m: nat)
        ensures
            selected.len() <= m ==> self.backfill(cands, selected, m).len() <= m,
            forall|i: int|
                0 <= i < self.backfill(cands, selected, m).len() ==> ids_of(cands).contains(
                    #[trigger] self.backfill(cands, selected, m)[i],
                ) || selected.contains(self.backfill(cands, selected, m)[i]),
        decreases cands.len(),
    {
        if cands.len() > 0 {
            let head = cands.drop_last();
            self.lemma_backfill_members(head, selected, m);
            let all = self.backfill(cands, selected, m);
            let before = self.backfill(head, selected, m);
            assert forall|i: int| 0 <= i < all.len() implies ids_of(cands).contains(
                #[trigger] all[i],
            ) || selected.contains(all[i]) by {
                if i < before.len() {
                    assert(all[i] == before[i]);
                    if !selected.contains(before[i]) {
                        let k = choose|k: int|
                            0 <= k < ids_of(head).len() && ids_of(head)[k] == before[i];
                        assert(ids_of(cands)[k] == all[i]);
                    }
                } else {
                    assert(ids_of(cands)[cands.len() - 1] == all[i]);
                }
            }
        } else {
            assert forall|i: int| 0 <= i < selected.len() implies selected.contains(
                #[trigger] selected[i],
            ) by {}
        }
    }

    /// A selection names candidates only, at most `m` of them.
    pub proof fn lemma_select_members(self, g: Graph, cands: Seq<Cand>, m: nat)
        ensures
            self.select(g, cands, m).len() <= m,
            forall|i: int|
                0 <= i < self.select(g, cands, m).len() ==> ids_of(cands).contains(
                    #[trigger] self.select(g, cands, m)[i],
                ),
    {
        let near = sorted(cands);
        let first = self.diverse(g, near, m);
        super::beam::lemma_sorted(cands);
        self.lemma_diverse_members(g, near, m);
        self.lemma_backfill_members(near, first, m);
        let all = self.select(g, cands, m);
        assert forall|i: int| 0 <= i < all.len() implies ids_of(cands).contains(
            #[trigger] all[i],
        ) by {
            if first.contains(all[i]) {
                let j = choose|j: int| 0 <= j < first.len() && first[j] == all[i];
                assert(ids_of(near).contains(first[j]));
            }
            let k = choose|k: int| 0 <= k < ids_of(near).len() && ids_of(near)[k] == all[i];
            assert(near.contains(near[k]));
            assert(cands.contains(near[k]));
            let x = choose|x: int| 0 <= x < cands.len() && cands[x] == near[k];
            assert(ids_of(cands)[x] == all[i]);
        }
    }

    proof fn lemma_diverse_same(self, g: Graph, h: Graph, cands: Seq<Cand>, m: nat)
        requires
            forall|id: int|
                0 <= id < g.nodes.len() ==> (#[trigger] g.nodes[id]).vector == h.nodes[id].vector,
            forall|i: int| 0 <= i < cands.len() ==> (#[trigger] cands[i]).id < g.nodes.len(),
        ensures
            self.diverse(g, cands, m) == self.diverse(h, cands, m),
        decreases cands.len(),
    {
        if cands.len() > 0 {
            let head = cands.drop_last();
            assert forall|i: int| 0 <= i < head.len() implies (#[trigger] head[i]).id
                < g.nodes.len() by {
                assert(head[i] == cands[i]);
            }
            self.lemma_diverse_same(g, h, head, m);
            let before = self.diverse(g, head, m);
            self.lemma_diverse_members(g, head, m);
            let c = cands.last();
            assert(cands[cands.len() - 1].id < g.nodes.len());
            assert(g.nodes[c.id as int].vector == h.nodes[c.id as int].vector);
            assert(self.diverse_from(g, c, before) == self.diverse_from(h, c, before)) by {
                assert forall|i: int| 0 <= i < before.len() implies g.nodes[#[trigger] before[i] as int].vector
                    == h.nodes[before[i] as int].vector by {
                    let k = choose|k: int|
                        0 <= k < ids_of(head).len() && ids_of(head)[k] == self.diverse(g, head, m)[i];
                    assert(head[k].id < g.nodes.len());
                }
            }
        }
    }

    /// A selection looks at vectors only.
    pub proof fn lemma_select_same(self, g: Graph, h: Graph, cands: Seq<Cand>, m: nat)
        requires
            forall|id: int|
                0 <= id < g.nodes.len() ==> (#[trigger] g.nodes[id]).vector == h.nodes[id].vector,
            forall|i: int| 0 <= i < cands.len() ==> (#[trigger] cands[i]).id < g.nodes.len(),
        ensures
            self.select(g, cands, m) == self.select(h, cands, m),
    {
        let near = sorted(cands);
        super::beam::lemma_sorted(cands);
        assert forall|i: int| 0 <= i < near.len() implies (#[trigger] near[i]).id
            < g.nodes.len() by {
            assert(near.contains(near[i]));
            let k = choose|k: int| 0 <= k < cands.len() && cands[k] == near[i];
            assert(cands[k].id < g.nodes.len());
        }
        self.lemma_diverse_same(g, h, near, m);
    }
}

impl Hnsw {
    /// Distances and level draws as this graph's build uses them.
    pub open spec fn builder<
        K: Fn(Kernel, &[u32], &[u32]) -> u32,
        L: Fn(u64, usize) -> usize,
    >(&self, kernel: K, level: L) -> Builder {
        Builder { dist: distances(kernel, self@.metric), level: draws(level) }
    }

    /// Whether `c` is no farther from the base than from any node selected so
    /// far.
    fn is_diverse<K: Fn(Kernel, &[u32], &[u32]) -> u32>(
        &self,
        kernel: &K,
        Ghost(b): Ghost<Builder>,
        c: &Cand,
        selected: &Vec<usize>,
    ) -> (r: Result<bool, HnswError>)
        requires
            self.stored(),
            kernel_ok(*kernel),
            b.dist == distances(*kernel, self@.metric),
            c.id < self@.nodes.len(),
            forall|i: int|
                0 <= i < selected@.len() ==> (#[trigger] selected@[i]) < self@.nodes.len(),
        ensures
            r == Ok::<bool, HnswError>(b.diverse_from(self@, *c, selected@)),
    {
        let mut i: usize = 0;
        while i < selected.len()
            invariant
                self.stored(),
                kernel_ok(*kernel),
                b.dist == distances(*kernel, self@.metric),
                c.id < self@.nodes.len(),
                i <= selected@.len(),
                forall|k: int|
                    0 <= k < selected@.len() ==> (#[trigger] selected@[k]) < self@.nodes.len(),
                forall|k: int|
                    0 <= k < i ==> !f32_lt(
                        (b.dist)(
                            self@.nodes[c.id as int].vector,
                            self@.nodes[#[trigger] selected@[k] as int].vector,
                        ),
                        c.dist,
                    ),
            decreases selected@.len() - i,
        {
            proof {
                self.lemma_vector_len(c.id as int);
                self.lemma_vector_len(selected@[i as int] as int);
            }
            let d: u32 = self.distance_to(kernel, self.vector(c.id), selected[i])?;
            if f32_less(d, c.dist) {
                return Ok(false);
            }
            i += 1;
        }
        Ok(true)
    }

    /// Choose neighbors from candidates: prefer those closer to the base than to
    /// any neighbor already chosen, which keeps the graph diverse, and fill up
    /// with the nearest left over.
    pub(crate) fn select_neighbors_heuristic<K: Fn(Kernel, &[u32], &[u32]) -> u32>(
        &self,
        kernel: &K,
        Ghost(b): Ghost<Builder>,
        candidates: &[Cand],
        m: usize,
    ) -> (r: Result<Vec<usize>, HnswError>)
        requires
            self.stored(),
            kernel_ok(*kernel),
            b.dist == distances(*kernel, self@.metric),
            forall|i: int|
                0 <= i < candidates@.len() ==> (#[trigger] candidates@[i]).id < self@.nodes.len(),
        ensures
            r matches Ok(v) && v@ == b.select(self@, candidates@, m as nat),
    {
        let near = sort(candidates);
        let ghost n = self@.nodes.len();
        proof {
            super::beam::lemma_sorted(candidates@);
            assert forall|i: int| 0 <= i < near@.len() implies (#[trigger] near@[i]).id < n by {
                assert(near@.contains(near@[i]));
                let k = choose|k: int| 0 <= k < candidates@.len() && candidates@[k] == near@[i];
                assert(candidates@[k].id < n);
            }
            assert(near@.take(0) =~= Seq::<Cand>::empty());
        }
        let mut selected: Vec<usize> = Vec::new();
        let mut i: usize = 0;
        while i < near.len()
            invariant
                self.stored(),
                kernel_ok(*kernel),
                b.dist == distances(*kernel, self@.metric),
                n == self@.nodes.len(),
                i <= near@.len(),
                forall|k: int| 0 <= k < near@.len() ==> (#[trigger] near@[k]).id < n,
                forall|k: int| 0 <= k < selected@.len() ==> (#[trigger] selected@[k]) < n,
                selected@ == b.diverse(self@, near@.take(i as int), m as nat),
            decreases near@.len() - i,
        {
            proof {
                assert(near@.take(i + 1).drop_last() =~= near@.take(i as int));
                assert(near@.take(i + 1).last() == near@[i as int]);
            }
            if selected.len() < m {
                let c = near[i];
                if self.is_diverse(kernel, Ghost(b), &c, &selected)? {
                    selected.push(c.id);
                }
            }
            i += 1;
        }
        assert(near@.take(near@.len() as int) =~= near@);
        let ghost first = selected@;
        let mut j: usize = 0;
        while j < near.len()
            invariant
                j <= near@.len(),
                selected@ == b.backfill(near@.take(j as int), first, m as nat),
            decreases near@.len() - j,
        {
            proof {
                assert(near@.take(j + 1).drop_last() =~= near@.take(j as int));
                assert(near@.take(j + 1).last() == near@[j as int]);
            }
            if selected.len() < m && !holds_id(&selected, near[j].id) {
                selected.push(near[j].id);
            }
            j += 1;
        }
        Ok(selected)
    }

    /// Append `id` to node `n`'s list, and prune the list when that overfills it.
    fn link_from<K: Fn(Kernel, &[u32], &[u32]) -> u32>(
        &mut self,
        kernel: &K,
        Ghost(b): Ghost<Builder>,
        n: usize,
        id: u32,
        layer: usize,
    ) -> (r: Result<(), HnswError>)
        requires
            old(self).stored(),
            kernel_ok(*kernel),
            b.dist == distances(*kernel, old(self)@.metric),
            n < old(self)@.nodes.len(),
            id < old(self)@.nodes.len(),
            layer < old(self)@.nodes[n as int].layers.len(),
            old(self)@.list_ok(layer as int, old(self)@.nodes[n as int].layers[layer as int]),
            old(self)@.cap(layer as int) < u32::MAX,
        ensures
            r == Ok::<(), HnswError>(()),
            final(self).stored(),
            final(self)@ == old(self)@.with_links(
                n as int,
                layer as int,
                b.appended(old(self)@, n as int, id, layer as int),
            ),
    {
        let ghost g = self@;
        let ghost list = g.nodes[n as int].layers[layer as int].push(id);
        let cap: usize = self.max_degree(layer);
        let len: usize = self.push_neighbor(n, layer, id);
        let ghost h = self@;
        proof {
            g.lemma_with_links(n as int, layer as int, list);
            self.lemma_node_count();
        }
        if len > cap {
            let mut cands: Vec<Cand> = Vec::new();
            let mut i: usize = 0;
            while i < len
                invariant
                    self.stored(),
                    kernel_ok(*kernel),
                    b.dist == distances(*kernel, self@.metric),
                    n < self@.nodes.len(),
                    self@ == h,
                    h == g.with_links(n as int, layer as int, list),
                    n < g.nodes.len(),
                    layer < g.nodes[n as int].layers.len(),
                    h.nodes[n as int].layers[layer as int] == list,
                    h.same_frame(g),
                    len == list.len(),
                    i <= len,
                    forall|k: int| 0 <= k < list.len() ==> (#[trigger] list[k]) < g.nodes.len(),
                    cands@ == b.scored(g, n as int, list).take(i as int),
                decreases len - i,
            {
                let nn: usize = self.neighbors(n, layer)[i] as usize;
                proof {
                    assert(nn == list[i as int]);
                    self.lemma_vector_len(n as int);
                    self.lemma_vector_len(nn as int);
                    assert(h.nodes[n as int].vector == g.nodes[n as int].vector);
                    assert(h.nodes[nn as int].vector == g.nodes[nn as int].vector);
                }
                let dist: u32 = self.distance_to(kernel, self.vector(n), nn)?;
                cands.push(Cand { dist, id: nn });
                i += 1;
                assert(cands@ =~= b.scored(g, n as int, list).take(i as int));
            }
            proof {
                assert(cands@ =~= b.scored(g, n as int, list));
                b.lemma_select_same(g, h, cands@, cap as nat);
                b.lemma_select_members(g, cands@, cap as nat);
            }
            let kept = self.select_neighbors_heuristic(kernel, Ghost(b), cands.as_slice(), cap)?;
            let kept32 = narrowed(kept.as_slice());
            self.set_neighbors(n, layer, kept32.as_slice());
            proof {
                assert(h.with_links(n as int, layer as int, kept32@).nodes =~= g.with_links(
                    n as int,
                    layer as int,
                    kept32@,
                ).nodes) by {
                    assert(g.nodes[n as int].layers.update(layer as int, list).update(
                        layer as int,
                        kept32@,
                    ) =~= g.nodes[n as int].layers.update(layer as int, kept32@));
                }
            }
        }
        Ok(())
    }
}

impl Graph {
    /// Every id of a list takes part in `layer`.
    pub open spec fn all_on_layer(self, ids: Seq<usize>, layer: int) -> bool {
        forall|i: int| 0 <= i < ids.len() ==> self.on_layer(#[trigger] ids[i] as int, layer)
    }
}

impl Builder {
    /// An appended and perhaps pruned list is a proper list of its layer.
    proof fn lemma_appended(self, g: Graph, n: int, id: u32, layer: int)
        requires
            g.valid(),
            g.on_layer(n, layer),
            g.on_layer(id as int, layer),
            layer >= 0,
        ensures
            g.list_ok(layer, self.appended(g, n, id, layer)),
            g.layered() ==> forall|i: int|
                0 <= i < self.appended(g, n, id, layer).len() ==> g.on_layer(
                    #[trigger] self.appended(g, n, id, layer)[i] as int,
                    layer,
                ),
    {
        assert(g.node_ok(n));
        let was = g.nodes[n].layers[layer];
        assert(g.list_ok(layer, was));
        let list = was.push(id);
        assert forall|i: int| 0 <= i < list.len() implies (#[trigger] list[i]) < g.nodes.len() && (
        g.layered() ==> g.on_layer(list[i] as int, layer)) by {
            if i < was.len() {
                assert(list[i] == g.nodes[n].layers[layer][i]);
                if g.layered() {
                    assert(g.on_layer(g.nodes[n].layers[layer][i] as int, layer));
                }
            }
        }
        if list.len() > g.cap(layer) {
            let cands = self.scored(g, n, list);
            self.lemma_select_members(g, cands, g.cap(layer));
            let kept = self.select(g, cands, g.cap(layer));
            assert forall|i: int| 0 <= i < kept.len() implies (#[trigger] narrow(kept)[i])
                < g.nodes.len() && (g.layered() ==> g.on_layer(narrow(kept)[i] as int, layer)) by {
                assert(ids_of(cands).contains(kept[i]));
                let k = choose|k: int| 0 <= k < ids_of(cands).len() && ids_of(cands)[k] == kept[i];
                assert(list[k] == narrow(kept)[i]);
            }
        }
    }

    /// Linking back keeps the graph's invariants and everything but links.
    pub proof fn lemma_link_back(self, g: Graph, chosen: Seq<usize>, id: u32, layer: int)
        requires
            g.valid(),
            layer >= 0,
            g.on_layer(id as int, layer),
            g.all_on_layer(chosen, layer),
        ensures
            self.link_back(g, chosen, id, layer).valid(),
            g.layered() ==> self.link_back(g, chosen, id, layer).layered(),
            self.link_back(g, chosen, id, layer).same_frame(g),
        decreases chosen.len(),
    {
        if chosen.len() > 0 {
            let head = chosen.drop_last();
            assert(g.all_on_layer(head, layer)) by {
                assert forall|i: int| 0 <= i < head.len() implies g.on_layer(
                    #[trigger] head[i] as int,
                    layer,
                ) by {
                    assert(head[i] == chosen[i]);
                }
            }
            self.lemma_link_back(g, head, id, layer);
            let h = self.link_back(g, head, id, layer);
            let n = chosen.last() as int;
            assert(g.on_layer(chosen[chosen.len() - 1] as int, layer));
            assert(h.nodes[n].layers.len() == g.nodes[n].layers.len());
            assert(h.nodes[id as int].layers.len() == g.nodes[id as int].layers.len());
            self.lemma_appended(h, n, id, layer);
            h.lemma_with_links(n, layer, self.appended(h, n, id, layer));
        }
    }

    /// Linking a node to chosen neighbors and back keeps the graph's invariants
    /// and everything but links.
    pub proof fn lemma_link(self, g: Graph, chosen: Seq<usize>, id: int, layer: int)
        requires
            g.valid(),
            layer >= 0,
            g.on_layer(id, layer),
            g.all_on_layer(chosen, layer),
            chosen.len() <= g.cap(layer),
        ensures
            g.with_links(id, layer, narrow(chosen)).valid(),
            g.layered() ==> g.with_links(id, layer, narrow(chosen)).layered(),
            g.with_links(id, layer, narrow(chosen)).same_frame(g),
            g.with_links(id, layer, narrow(chosen)).all_on_layer(chosen, layer),
            self.link(g, chosen, id, layer).valid(),
            g.layered() ==> self.link(g, chosen, id, layer).layered(),
            self.link(g, chosen, id, layer).same_frame(g),
    {
        let list = narrow(chosen);
        assert forall|i: int| 0 <= i < list.len() implies (#[trigger] list[i]) < g.nodes.len()
            && g.on_layer(list[i] as int, layer) by {
            assert(g.on_layer(chosen[i] as int, layer));
        }
        g.lemma_with_links(id, layer, list);
        let h = g.with_links(id, layer, list);
        assert forall|i: int| 0 <= i < chosen.len() implies h.on_layer(
            #[trigger] chosen[i] as int,
            layer,
        ) by {
            assert(g.on_layer(chosen[i] as int, layer));
            assert(h.nodes[chosen[i] as int].layers.len() == g.nodes[chosen[i] as int].layers.len());
        }
        assert(h.nodes[id].layers.len() == g.nodes[id].layers.len());
        self.lemma_link_back(h, chosen, id as u32, layer);
    }

    /// A search of one layer finds nodes of the graph, and so does a selection
    /// from them.
    pub proof fn lemma_found_in_range(self, w: Walk, eps: Seq<usize>, ef: nat, layer: int)
        requires
            w.graph.valid(),
            forall|i: int| 0 <= i < eps.len() ==> (#[trigger] eps[i]) < w.graph.nodes.len(),
        ensures
            forall|i: int|
                0 <= i < w.layer(eps, ef, layer).len() ==> (#[trigger] w.layer(
                    eps,
                    ef,
                    layer,
                )[i]).id < w.graph.nodes.len(),
            self.select(w.graph, w.layer(eps, ef, layer), w.graph.cap(layer)).len() <= w.graph.cap(
                layer,
            ),
    {
        let g = w.graph;
        w.lemma_layer_found(eps, ef, layer, |x: int| true);
        self.lemma_select_members(g, w.layer(eps, ef, layer), g.cap(layer));
    }

    /// A search of one layer finds nodes of that layer, and so does a selection
    /// from them, where links stay within their layers.
    pub proof fn lemma_found_on_layer(self, w: Walk, eps: Seq<usize>, ef: nat, layer: int)
        requires
            w.graph.valid(),
            w.graph.layered(),
            layer >= 0,
            w.graph.all_on_layer(eps, layer),
        ensures
            w.graph.all_on_layer(ids_of(w.layer(eps, ef, layer)), layer),
            w.graph.all_on_layer(
                self.select(w.graph, w.layer(eps, ef, layer), w.graph.cap(layer)),
                layer,
            ),
            self.select(w.graph, w.layer(eps, ef, layer), w.graph.cap(layer)).len() <= w.graph.cap(
                layer,
            ),
    {
        let g = w.graph;
        let p = |x: int| g.on_layer(x, layer);
        assert(g.closed_under_links(p, layer)) by {
            assert forall|id: int, i: int|
                p(id) && 0 <= i < g.neighbors(id, layer).len() implies p(
                #[trigger] g.neighbors(id, layer)[i] as int,
            ) by {
                assert(g.on_layer(g.nodes[id].layers[layer][i] as int, layer));
            }
        }
        assert forall|i: int| 0 <= i < eps.len() implies (#[trigger] eps[i]) < g.nodes.len() && p(
            eps[i] as int,
        ) by {
            assert(g.on_layer(eps[i] as int, layer));
        }
        w.lemma_layer_found(eps, ef, layer, p);
        let found = w.layer(eps, ef, layer);
        assert forall|i: int| 0 <= i < ids_of(found).len() implies g.on_layer(
            #[trigger] ids_of(found)[i] as int,
            layer,
        ) by {
            let c = found[i];
            assert(p(c.id as int));
        }
        self.lemma_select_members(g, found, g.cap(layer));
        let chosen = self.select(g, found, g.cap(layer));
        assert forall|i: int| 0 <= i < chosen.len() implies g.on_layer(
            #[trigger] chosen[i] as int,
            layer,
        ) by {
            let k = choose|k: int| 0 <= k < ids_of(found).len() && ids_of(found)[k] == chosen[i];
            assert(g.on_layer(ids_of(found)[k] as int, layer));
        }
    }

    /// A descent from a node that reaches up to `top` ends on a node that still
    /// takes part in the layer below `bottom`.
    proof fn lemma_descend_on_layer(self, w: Walk, eps: Seq<usize>, top: int, bottom: int)
        requires
            w.graph.valid(),
            w.graph.layered(),
            bottom >= 1,
            w.graph.all_on_layer(eps, top),
            eps.len() == 1,
        ensures
            top >= bottom ==> w.graph.all_on_layer(w.descend(eps, top, bottom), bottom - 1),
            top < bottom ==> w.descend(eps, top, bottom) == eps,
            w.descend(eps, top, bottom).len() == 1,
        decreases top - bottom + 1,
    {
        if top >= bottom {
            let found = w.layer(eps, 1, top);
            self.lemma_found_on_layer(w, eps, 1, top);
            let next = if found.len() > 0 {
                seq![found[0].id]
            } else {
                eps
            };
            assert(w.graph.all_on_layer(next, top - 1)) by {
                assert forall|i: int| 0 <= i < next.len() implies w.graph.on_layer(
                    #[trigger] next[i] as int,
                    top - 1,
                ) by {
                    if found.len() > 0 {
                        assert(w.graph.on_layer(ids_of(found)[0] as int, top));
                    } else {
                        assert(w.graph.on_layer(eps[i] as int, top));
                    }
                }
            }
            self.lemma_descend_on_layer(w, next, top - 1, bottom);
        }
    }

    /// Connecting a node on the layers below keeps the graph's invariants and
    /// everything but links; and where links stay within their layers, it does
    /// not stray and they still do.
    pub proof fn lemma_connect(
        self,
        g: Graph,
        id: int,
        eps: Seq<usize>,
        entry: usize,
        layer: int,
    )
        requires
            g.valid(),
            g.on_layer(id, layer),
            entry < g.nodes.len(),
            forall|i: int| 0 <= i < eps.len() ==> (#[trigger] eps[i]) < g.nodes.len(),
        ensures
            self.connect(g, id, eps, entry, layer).valid(),
            self.connect(g, id, eps, entry, layer).same_frame(g),
            g.layered() && g.all_on_layer(eps, layer) && g.on_layer(entry as int, layer) ==> {
                &&& self.connect(g, id, eps, entry, layer).layered()
                &&& !self.strays_below(g, id, eps, entry, layer)
            },
        decreases layer + 1,
    {
        if layer >= 0 {
            let w = self.around(g, id);
            let found = w.layer(eps, g.ef_construction, layer);
            let chosen = self.select(g, found, g.cap(layer));
            self.lemma_found_in_range(w, eps, g.ef_construction, layer);
            if g.layered() && g.all_on_layer(eps, layer) {
                self.lemma_found_on_layer(w, eps, g.ef_construction, layer);
            }
            if g.all_on_layer(chosen, layer) {
                self.lemma_link(g, chosen, id, layer);
                let h = self.link(g, chosen, id, layer);
                let next = if found.len() == 0 {
                    seq![entry]
                } else {
                    ids_of(found)
                };
                assert forall|i: int| 0 <= i < next.len() implies (#[trigger] next[i])
                    < h.nodes.len() by {
                    if found.len() > 0 {
                        assert(found[i].id < g.nodes.len());
                    }
                }
                assert(h.nodes[id].layers.len() == g.nodes[id].layers.len());
                if g.layered() && g.all_on_layer(eps, layer) && g.on_layer(entry as int, layer) {
                    lemma_next_entry(g, h, found, entry, layer);
                }
                self.lemma_connect(h, id, next, entry, layer - 1);
            }
        }
    }
}

/// What a layer's search found serves as entry points one layer down.
pub proof fn lemma_next_entry(g: Graph, h: Graph, found: Seq<Cand>, entry: usize, layer: int)
    requires
        h.same_frame(g),
        g.all_on_layer(ids_of(found), layer),
        g.on_layer(entry as int, layer),
    ensures
        h.all_on_layer(
            if found.len() == 0 {
                seq![entry]
            } else {
                ids_of(found)
            },
            layer - 1,
        ),
        h.on_layer(entry as int, layer - 1),
        forall|k: int| #[trigger] g.on_layer(k, layer) ==> h.on_layer(k, layer - 1),
{
    assert forall|k: int| #[trigger] g.on_layer(k, layer) implies h.on_layer(k, layer - 1) by {
        assert(h.nodes[k].layers.len() == g.nodes[k].layers.len());
    }
    assert forall|i: int| 0 <= i < ids_of(found).len() implies h.on_layer(
        #[trigger] ids_of(found)[i] as int,
        layer - 1,
    ) by {
        assert(g.on_layer(ids_of(found)[i] as int, layer));
    }
}

impl Hnsw {
    /// Link node `id` to its chosen neighbors on `layer`, and back.
    fn link<K: Fn(Kernel, &[u32], &[u32]) -> u32>(
        &mut self,
        kernel: &K,
        Ghost(b): Ghost<Builder>,
        chosen: &Vec<usize>,
        id: usize,
        layer: usize,
    ) -> (r: Result<(), HnswError>)
        requires
            old(self).wf(),
            kernel_ok(*kernel),
            b.dist == distances(*kernel, old(self)@.metric),
            old(self)@.on_layer(id as int, layer as int),
            old(self)@.all_on_layer(chosen@, layer as int),
            chosen@.len() <= old(self)@.cap(layer as int),
            old(self)@.cap(layer as int) < u32::MAX,
        ensures
            r == Ok::<(), HnswError>(()),
            final(self).wf(),
            final(self)@ == b.link(old(self)@, chosen@, id as int, layer as int),
            final(self)@.same_frame(old(self)@),
    {
        let ghost g = self@;
        proof {
            b.lemma_link(g, chosen@, id as int, layer as int);
        }
        let list = narrowed(chosen.as_slice());
        self.set_neighbors(id, layer, list.as_slice());
        let ghost h = self@;
        let mut i: usize = 0;
        assert(chosen@.take(0) =~= Seq::<usize>::empty());
        while i < chosen.len()
            invariant
                self.stored(),
                kernel_ok(*kernel),
                g.valid(),
                b.dist == distances(*kernel, g.metric),
                h.valid(),
                h.same_frame(g),
                h.on_layer(id as int, layer as int),
                h.all_on_layer(chosen@, layer as int),
                h.cap(layer as int) < u32::MAX,
                id < h.nodes.len() <= Self::MAX_NODES,
                i <= chosen@.len(),
                self@ == b.link_back(h, chosen@.take(i as int), id as u32, layer as int),
            decreases chosen@.len() - i,
        {
            proof {
                let head = chosen@.take(i as int);
                assert(chosen@.take(i + 1).drop_last() =~= head);
                assert(chosen@.take(i + 1).last() == chosen@[i as int]);
                assert(h.all_on_layer(head, layer as int)) by {
                    assert forall|k: int| 0 <= k < head.len() implies h.on_layer(
                        #[trigger] head[k] as int,
                        layer as int,
                    ) by {
                        assert(head[k] == chosen@[k]);
                    }
                }
                b.lemma_link_back(h, head, id as u32, layer as int);
                let n = chosen@[i as int] as int;
                assert(h.on_layer(n, layer as int));
                assert(self@.nodes[n].layers.len() == h.nodes[n].layers.len());
                assert(self@.node_ok(n));
                assert(self@.list_ok(layer as int, self@.nodes[n].layers[layer as int]));
            }
            self.link_from(kernel, Ghost(b), chosen[i], id as u32, layer)?;
            i += 1;
        }
        proof {
            assert(chosen@.take(chosen@.len() as int) =~= chosen@);
        }
        Ok(())
    }

    /// Whether all of `ids` take part in `layer`.
    fn are_on_layer(&self, ids: &Vec<usize>, layer: usize) -> (r: bool)
        requires
            self.wf(),
        ensures
            r == self@.all_on_layer(ids@, layer as int),
    {
        let mut i: usize = 0;
        while i < ids.len()
            invariant
                self.wf(),
                i <= ids@.len(),
                forall|k: int|
                    0 <= k < i ==> self@.on_layer(#[trigger] ids@[k] as int, layer as int),
            decreases ids@.len() - i,
        {
            if ids[i] >= self.len() || layer >= self.levels(ids[i]) {
                assert(!self@.on_layer(ids@[i as int] as int, layer as int));
                return false;
            }
            i += 1;
        }
        true
    }

    /// Connect node `id` on every layer from `top` down, starting from `first`.
    /// Stops and says so where a chosen neighbor does not take part in the layer:
    /// it has no list there to be linked back from.
    fn connect<K: Fn(Kernel, &[u32], &[u32]) -> u32>(
        &mut self,
        kernel: &K,
        Ghost(b): Ghost<Builder>,
        id: usize,
        first: Vec<usize>,
        entry: usize,
        top: usize,
    ) -> (r: Result<bool, HnswError>)
        requires
            old(self).wf(),
            kernel_ok(*kernel),
            b.dist == distances(*kernel, old(self)@.metric),
            old(self)@.on_layer(id as int, top as int),
            entry < old(self)@.nodes.len(),
            forall|i: int|
                0 <= i < first@.len() ==> (#[trigger] first@[i]) < old(self)@.nodes.len(),
            old(self)@.cap(0) < u32::MAX,
            old(self)@.cap(1) < u32::MAX,
        ensures
            r == Ok::<bool, HnswError>(
                !b.strays_below(old(self)@, id as int, first@, entry, top as int),
            ),
            final(self).wf(),
            final(self)@ == b.connect(old(self)@, id as int, first@, entry, top as int),
    {
        let ghost start = self@;
        let ghost goal = b.connect(self@, id as int, first@, entry, top as int);
        let ghost strays = b.strays_below(self@, id as int, first@, entry, top as int);
        proof {
            self.lemma_vector_len(id as int);
        }
        let mut eps = first;
        let mut left: usize = top + 1;
        while left > 0
            invariant
                self.wf(),
                kernel_ok(*kernel),
                b.dist == distances(*kernel, self@.metric),
                self@.on_layer(id as int, left - 1),
                entry < self@.nodes.len(),
                forall|i: int|
                    0 <= i < eps@.len() ==> (#[trigger] eps@[i]) < self@.nodes.len(),
                self@.cap(0) < u32::MAX,
                self@.cap(1) < u32::MAX,
                start == old(self)@,
                self@.same_frame(start),
                goal == b.connect(start, id as int, first@, entry, top as int),
                strays == b.strays_below(start, id as int, first@, entry, top as int),
                goal == b.connect(self@, id as int, eps@, entry, left - 1),
                strays == b.strays_below(self@, id as int, eps@, entry, left - 1),
            decreases left,
        {
            let layer: usize = left - 1;
            let ghost g = self@;
            let ghost w = b.around(g, id as int);
            let query = slice_to_vec(self.vector(id));
            proof {
                self.lemma_vector_len(id as int);
                assert(w == self.walk(*kernel, query@, None));
                b.lemma_found_in_range(w, eps@, g.ef_construction, layer as int);
            }
            let found = self.search_layer(
                kernel,
                query.as_slice(),
                eps.as_slice(),
                self.ef_construction(),
                layer,
            )?;
            let cap: usize = self.max_degree(layer);
            let chosen = self.select_neighbors_heuristic(kernel, Ghost(b), found.as_slice(), cap)?;
            if !self.are_on_layer(&chosen, layer) {
                return Ok(false);
            }
            self.link(kernel, Ghost(b), &chosen, id, layer)?;
            proof {
                assert(self@.nodes[id as int].layers.len() == g.nodes[id as int].layers.len());
            }
            eps = candidate_ids(found.as_slice());
            proof {
                assert forall|i: int| 0 <= i < eps@.len() implies (#[trigger] eps@[i])
                    < self@.nodes.len() by {
                    assert(found@[i].id < g.nodes.len());
                }
            }
            if eps.len() == 0 {
                eps.push(entry);
                assert(eps@ =~= seq![entry]);
            }
            left = layer;
        }
        Ok(true)
    }
}

/// The graph with a new unconnected node keeps its invariants.
proof fn lemma_placed(
    b: Builder,
    g: Graph,
    vector: Seq<u32>,
    attrs: Seq<AttrValue>,
    level: nat,
)
    requires
        g.valid(),
        g.nodes.len() < Hnsw::MAX_NODES,
        vector.len() == g.dim,
        g.dim > 0,
    ensures
        b.placed(g, vector, attrs, level).valid(),
        g.layered() ==> b.placed(g, vector, attrs, level).layered(),
{
    let h = b.placed(g, vector, attrs, level);
    let n = g.nodes.len() as int;
    assert forall|k: int| 0 <= k < h.nodes.len() implies #[trigger] h.node_ok(k) by {
        if k < n {
            assert(h.nodes[k] == g.nodes[k]);
            assert(g.node_ok(k));
            assert forall|l: int| 0 <= l < h.nodes[k].layers.len() implies h.list_ok(
                l,
                #[trigger] h.nodes[k].layers[l],
            ) by {
                assert(g.list_ok(l, g.nodes[k].layers[l]));
            }
        }
    }
    if g.layered() {
        assert forall|k: int, l: int, i: int|
            0 <= k < h.nodes.len() && 0 <= l < h.nodes[k].layers.len() && 0 <= i
                < h.nodes[k].layers[l].len() implies h.on_layer(
            #[trigger] h.nodes[k].layers[l][i] as int,
            l,
        ) by {
            if k < n {
                assert(h.nodes[k] == g.nodes[k]);
                assert(g.on_layer(g.nodes[k].layers[l][i] as int, l));
            }
        }
    }
}

impl Builder {
    /// Every insert keeps the graph's invariants; and where links stay within
    /// their layers, it does not stray and they still do.
    pub proof fn lemma_inserted(self, g: Graph, vector: Seq<u32>, attrs: Seq<AttrValue>)
        requires
            g.valid(),
        ensures
            self.inserted(g, vector, attrs).valid(),
            g.layered() ==> {
                &&& self.inserted(g, vector, attrs).layered()
                &&& !self.strays(g, vector, attrs)
            },
            self.insert_result(g, vector) is Ok ==> self.inserted(
                g,
                vector,
                attrs,
            ).same_frame(
                self.placed(self.drawn(g, vector.len()), vector, attrs, self.next_level(g)),
            ),
    {
        if self.refusal(g, vector) is None {
            let ready = self.drawn(g, vector.len());
            lemma_drawn(self, g, vector.len());
            if g.nodes.len() < Hnsw::MAX_NODES {
                let level = self.next_level(g);
                let with = self.placed(ready, vector, attrs, level);
                lemma_placed(self, ready, vector, attrs, level);
                if let Some(e) = g.entry_point {
                    lemma_start_for_insert(self, g, vector, attrs);
                    if g.layered() {
                        lemma_entry_for_insert(self, g, vector, attrs);
                    }
                    let id = g.nodes.len() as int;
                    let eps = self.around(with, id).descend(
                        seq![e],
                        g.max_layer as int,
                        level as int + 1,
                    );
                    let top = if level < g.max_layer {
                        level as int
                    } else {
                        g.max_layer as int
                    };
                    self.lemma_connect(with, id, eps, e, top);
                }
            }
        }
    }
}

/// Fixing the dimensionality and drawing a level keeps the graph's invariants.
proof fn lemma_drawn(b: Builder, g: Graph, dim: nat)
    requires
        g.valid(),
        g.dim == 0 || g.dim == dim,
        0 < dim <= HnswParams::MAX_DIM,
    ensures
        b.drawn(g, dim).valid(),
        g.layered() ==> b.drawn(g, dim).layered(),
{
    xorshift_stays_nonzero(g.rng);
    let h = b.drawn(g, dim);
    assert forall|k: int| 0 <= k < h.nodes.len() implies #[trigger] h.node_ok(k) by {
        assert(g.node_ok(k));
        assert forall|l: int| 0 <= l < h.nodes[k].layers.len() implies h.list_ok(
            l,
            #[trigger] h.nodes[k].layers[l],
        ) by {
            assert(g.list_ok(l, g.nodes[k].layers[l]));
        }
    }
    if g.layered() {
        assert forall|k: int, l: int, i: int|
            0 <= k < h.nodes.len() && 0 <= l < h.nodes[k].layers.len() && 0 <= i
                < h.nodes[k].layers[l].len() implies h.on_layer(
            #[trigger] h.nodes[k].layers[l][i] as int,
            l,
        ) by {
            assert(g.on_layer(g.nodes[k].layers[l][i] as int, l));
        }
    }
}

/// The descent before connecting a new node ends on a node of the graph.
proof fn lemma_start_for_insert(b: Builder, g: Graph, vector: Seq<u32>, attrs: Seq<AttrValue>)
    requires
        g.valid(),
        g.entry_point is Some,
        g.nodes.len() < Hnsw::MAX_NODES,
        b.refusal(g, vector) is None,
    ensures
        ({
            let level = b.next_level(g);
            let with = b.placed(b.drawn(g, vector.len()), vector, attrs, level);
            let id = g.nodes.len() as int;
            let e = g.entry_point->0;
            let top = if level < g.max_layer {
                level as int
            } else {
                g.max_layer as int
            };
            let eps = b.around(with, id).descend(seq![e], g.max_layer as int, level as int + 1);
            &&& with.valid()
            &&& e < with.nodes.len()
            &&& with.on_layer(id, top)
            &&& forall|i: int| 0 <= i < eps.len() ==> (#[trigger] eps[i]) < with.nodes.len()
        }),
{
    let level = b.next_level(g);
    let ready = b.drawn(g, vector.len());
    lemma_drawn(b, g, vector.len());
    let with = b.placed(ready, vector, attrs, level);
    lemma_placed(b, ready, vector, attrs, level);
    let e = g.entry_point->0;
    b.around(with, g.nodes.len() as int).lemma_descend_in_range(
        seq![e],
        g.max_layer as int,
        level as int + 1,
    );
}

/// The descent before connecting a new node ends where connecting starts.
pub proof fn lemma_entry_for_insert(b: Builder, g: Graph, vector: Seq<u32>, attrs: Seq<AttrValue>)
    requires
        g.valid(),
        g.layered(),
        g.entry_point is Some,
        g.nodes.len() < Hnsw::MAX_NODES,
        b.refusal(g, vector) is None,
    ensures
        ({
            let level = b.next_level(g);
            let with = b.placed(b.drawn(g, vector.len()), vector, attrs, level);
            let id = g.nodes.len() as int;
            let e = g.entry_point->0;
            let top = if level < g.max_layer {
                level as int
            } else {
                g.max_layer as int
            };
            let eps = b.around(with, id).descend(seq![e], g.max_layer as int, level as int + 1);
            &&& with.valid()
            &&& with.layered()
            &&& e < with.nodes.len()
            &&& with.on_layer(id, top)
            &&& with.on_layer(e as int, top)
            &&& with.all_on_layer(eps, top)
        }),
{
    let level = b.next_level(g);
    let ready = b.drawn(g, vector.len());
    lemma_drawn(b, g, vector.len());
    let with = b.placed(ready, vector, attrs, level);
    lemma_placed(b, ready, vector, attrs, level);
    let id = g.nodes.len() as int;
    let e = g.entry_point->0;
    assert(with.nodes[e as int] == g.nodes[e as int]);
    assert(with.all_on_layer(seq![e], g.max_layer as int));
    b.lemma_descend_on_layer(
        b.around(with, id),
        seq![e],
        g.max_layer as int,
        level as int + 1,
    );
}

impl Hnsw {
    /// Draw the next node's top layer.
    fn random_level<L: Fn(u64, usize) -> usize>(&mut self, level: &L) -> (r: usize)
        requires
            old(self).stored(),
            level_ok(*level),
        ensures
            final(self).stored(),
            final(self)@ == (Graph { rng: xorshift(old(self)@.rng), ..old(self)@ }),
            r == draws(*level)(xorshift(old(self)@.rng) >> 11u64, old(self)@.m),
    {
        let mut state: u64 = self.rng();
        let draw: u64 = xorshift64(&mut state) >> 11u64;
        self.set_rng(state);
        let m: usize = self.m();
        let r: usize = level(draw, m);
        assert(call_ensures(*level, (draw, m), level_value(*level, draw, m)));
        r
    }

    /// Insert a vector with no filterable attributes, returning its node id.
    pub fn insert<K: Fn(Kernel, &[u32], &[u32]) -> u32, L: Fn(u64, usize) -> usize>(
        &mut self,
        kernel: &K,
        level: &L,
        vector: Vec<u32>,
    ) -> (r: Result<usize, HnswError>)
        requires
            old(self).wf(),
            kernel_ok(*kernel),
            level_ok(*level),
            old(self).builder(*kernel, *level).has_room(old(self)@, vector@),
            old(self)@.layered() || !old(self).builder(*kernel, *level).strays(
                old(self)@,
                vector@,
                Seq::empty(),
            ),
        ensures
            final(self).wf(),
            old(self)@.layered() ==> final(self)@.layered(),
            r == old(self).builder(*kernel, *level).insert_result(old(self)@, vector@),
            final(self)@ == old(self).builder(*kernel, *level).inserted(
                old(self)@,
                vector@,
                Seq::empty(),
            ),
    {
        self.insert_with_attrs(kernel, level, vector, Vec::new())
    }

    /// Insert a vector and its filterable attribute row, returning its node id.
    /// The row is stored as it is, for predicate-aware search; it does not
    /// influence the graph. Dimensionality is fixed by the first insert.
    pub fn insert_with_attrs<
        K: Fn(Kernel, &[u32], &[u32]) -> u32,
        L: Fn(u64, usize) -> usize,
    >(
        &mut self,
        kernel: &K,
        level: &L,
        vector: Vec<u32>,
        attrs: Vec<AttrValue>,
    ) -> (r: Result<usize, HnswError>)
        requires
            old(self).wf(),
            kernel_ok(*kernel),
            level_ok(*level),
            old(self).builder(*kernel, *level).has_room(old(self)@, vector@),
            old(self)@.layered() || !old(self).builder(*kernel, *level).strays(
                old(self)@,
                vector@,
                attrs@,
            ),
        ensures
            final(self).wf(),
            old(self)@.layered() ==> final(self)@.layered(),
            r == old(self).builder(*kernel, *level).insert_result(old(self)@, vector@),
            final(self)@ == old(self).builder(*kernel, *level).inserted(
                old(self)@,
                vector@,
                attrs@,
            ),
    {
        let ghost g = self@;
        let ghost b = self.builder(*kernel, *level);
        proof {
            b.lemma_inserted(g, vector@, attrs@);
        }
        let id: usize = self.len();
        match self.insert_or_stray(kernel, level, vector, attrs) {
            Ok(_) => Ok(id),
            Err(e) => Err(e),
        }
    }

    /// Insert into a graph whose links may leave their layer, as a decoded one's
    /// may. Answers `None` where the insert strays: the graph is then left partly
    /// linked, and not to be kept.
    pub fn insert_or_stray<
        K: Fn(Kernel, &[u32], &[u32]) -> u32,
        L: Fn(u64, usize) -> usize,
    >(
        &mut self,
        kernel: &K,
        level: &L,
        vector: Vec<u32>,
        attrs: Vec<AttrValue>,
    ) -> (r: Result<Option<usize>, HnswError>)
        requires
            old(self).wf(),
            kernel_ok(*kernel),
            level_ok(*level),
            old(self).builder(*kernel, *level).has_room(old(self)@, vector@),
        ensures
            final(self).wf(),
            old(self)@.layered() ==> final(self)@.layered(),
            r == (match old(self).builder(*kernel, *level).insert_result(old(self)@, vector@) {
                Err(e) => Err(e),
                Ok(id) => Ok(
                    if old(self).builder(*kernel, *level).strays(old(self)@, vector@, attrs@) {
                        None
                    } else {
                        Some(id)
                    },
                ),
            }),
            final(self)@ == old(self).builder(*kernel, *level).inserted(
                old(self)@,
                vector@,
                attrs@,
            ),
    {
        let ghost g = self@;
        let ghost b = self.builder(*kernel, *level);
        proof {
            b.lemma_inserted(g, vector@, attrs@);
        }
        if vector.len() == 0 {
            return Err(HnswError::EmptyVector);
        }
        if vector.len() > HnswParams::MAX_DIM {
            return Err(
                HnswError::DimensionTooLarge { got: vector.len(), max: HnswParams::MAX_DIM },
            );
        }
        if self.dim() == 0 {
            self.set_dim(vector.len());
        } else if vector.len() != self.dim() {
            return Err(
                HnswError::DimensionMismatch { expected: self.dim(), got: vector.len() },
            );
        }
        let top: usize = self.random_level(level);
        let ghost ready = self@;
        assert(ready == b.drawn(g, vector@.len()));
        proof {
            lemma_drawn(b, g, vector@.len());
        }
        let levels: usize = if top == usize::MAX { top } else { top + 1 };
        let ghost row = attrs@;
        let id: usize = match self.push_node(vector.as_slice(), attrs, levels) {
            Ok(id) => id,
            Err(e) => {
                return Err(e);
            },
        };
        let ghost with = b.placed(ready, vector@, row, top as nat);
        proof {
            lemma_placed(b, ready, vector@, row, top as nat);
        }
        let entry: usize = match self.entry_point() {
            None => {
                self.set_entry(Some(id), top);
                assert(self@ == with);
                return Ok(Some(id));
            },
            Some(e) => e,
        };
        let max_layer: usize = self.max_layer();
        if top > max_layer {
            self.set_entry(Some(id), top);
        }
        assert(self@ == with);
        proof {
            lemma_start_for_insert(b, g, vector@, row);
            assert(b.around(with, id as int) == self.walk(*kernel, vector@, None));
        }
        let eps = self.descend(kernel, vector.as_slice(), entry, max_layer, top + 1)?;
        let start: usize = if top < max_layer { top } else { max_layer };
        if self.connect(kernel, Ghost(b), id, eps, entry, start)? {
            Ok(Some(id))
        } else {
            Ok(None)
        }
    }
}

/// A vector and its attribute row.
pub struct Row {
    pub vector: Seq<u32>,
    pub attrs: Seq<AttrValue>,
}

/// The rows of the live nodes, in id order.
pub open spec fn live_rows(nodes: Seq<Node>) -> Seq<Row>
    decreases nodes.len(),
{
    if nodes.len() == 0 {
        Seq::empty()
    } else if nodes.last().deleted {
        live_rows(nodes.drop_last())
    } else {
        live_rows(nodes.drop_last()).push(
            Row { vector: nodes.last().vector, attrs: nodes.last().attrs },
        )
    }
}

impl Graph {
    /// The parameters a rebuild of this graph uses.
    pub open spec fn rebuild_params(self) -> HnswParams {
        HnswParams {
            m: self.m as usize,
            ef_construction: self.ef_construction as usize,
            gamma: self.gamma,
            metric: self.metric,
            seed: self.seed,
        }
    }
}

impl Builder {
    /// The graph after inserting rows one after the other.
    pub open spec fn insert_all(self, g: Graph, rows: Seq<Row>) -> Graph
        decreases rows.len(),
    {
        if rows.len() == 0 {
            g
        } else {
            self.inserted(
                self.insert_all(g, rows.drop_last()),
                rows.last().vector,
                rows.last().attrs,
            )
        }
    }

    /// The graph rebuilt from its live nodes.
    pub open spec fn compacted(self, g: Graph) -> Graph {
        self.insert_all(Graph::empty(g.rebuild_params()), live_rows(g.nodes))
    }

    /// Every insert of a rebuild fits the machine.
    pub open spec fn has_room_to_compact(self, g: Graph) -> bool {
        let rows = live_rows(g.nodes);
        forall|i: int|
            0 <= i < rows.len() ==> self.has_room(
                #[trigger] self.insert_all(Graph::empty(g.rebuild_params()), rows.take(i)),
                rows[i].vector,
            )
    }

    /// Inserting rows of one dimensionality into an empty graph keeps them all,
    /// in order.
    pub proof fn lemma_insert_all(self, g: Graph, rows: Seq<Row>, dim: nat)
        requires
            g.valid(),
            g.layered(),
            g.nodes.len() == 0,
            g.dim == 0,
            0 < dim <= HnswParams::MAX_DIM,
            rows.len() <= Hnsw::MAX_NODES,
            forall|i: int| 0 <= i < rows.len() ==> (#[trigger] rows[i]).vector.len() == dim,
        ensures
            self.insert_all(g, rows).valid(),
            self.insert_all(g, rows).layered(),
            self.insert_all(g, rows).nodes.len() == rows.len(),
            self.insert_all(g, rows).dim == (if rows.len() == 0 {
                0
            } else {
                dim
            }),
            self.insert_all(g, rows).metric == g.metric,
            forall|i: int|
                0 <= i < rows.len() ==> {
                    let node = #[trigger] self.insert_all(g, rows).nodes[i];
                    &&& node.vector == rows[i].vector
                    &&& node.attrs == rows[i].attrs
                    &&& !node.deleted
                },
        decreases rows.len(),
    {
        if rows.len() > 0 {
            let head = rows.drop_last();
            assert forall|i: int| 0 <= i < head.len() implies (#[trigger] head[i]).vector.len()
                == dim by {
                assert(head[i] == rows[i]);
            }
            self.lemma_insert_all(g, head, dim);
            let before = self.insert_all(g, head);
            let row = rows.last();
            assert(rows[rows.len() - 1].vector.len() == dim);
            self.lemma_inserted(before, row.vector, row.attrs);
            let after = self.insert_all(g, rows);
            let with = self.placed(
                self.drawn(before, dim),
                row.vector,
                row.attrs,
                self.next_level(before),
            );
            assert(after.same_frame(with));
            assert forall|i: int| 0 <= i < rows.len() implies {
                let node = #[trigger] after.nodes[i];
                &&& node.vector == rows[i].vector
                &&& node.attrs == rows[i].attrs
                &&& !node.deleted
            } by {
                assert(after.nodes[i].vector == with.nodes[i].vector);
                if i < head.len() {
                    assert(with.nodes[i] == before.nodes[i]);
                    assert(head[i] == rows[i]);
                }
            }
        }
    }
}

/// Live rows have the graph's dimensionality, and there are as many as nodes
/// that are not tombstoned.
pub proof fn lemma_live_rows(nodes: Seq<Node>, dim: nat)
    requires
        forall|i: int| 0 <= i < nodes.len() ==> (#[trigger] nodes[i]).vector.len() == dim,
    ensures
        live_rows(nodes).len() + super::graph::deleted_in(nodes) == nodes.len(),
        forall|i: int|
            0 <= i < live_rows(nodes).len() ==> (#[trigger] live_rows(nodes)[i]).vector.len()
                == dim,
    decreases nodes.len(),
{
    if nodes.len() > 0 {
        let head = nodes.drop_last();
        assert forall|i: int| 0 <= i < head.len() implies (#[trigger] head[i]).vector.len()
            == dim by {
            assert(head[i] == nodes[i]);
        }
        lemma_live_rows(head, dim);
        assert(nodes[nodes.len() - 1].vector.len() == dim);
    }
}

/// The live rows of a prefix are a prefix of the live rows.
proof fn lemma_live_rows_prefix(nodes: Seq<Node>, upto: int)
    requires
        0 <= upto <= nodes.len(),
    ensures
        live_rows(nodes.take(upto)).len() <= live_rows(nodes).len(),
        live_rows(nodes).take(live_rows(nodes.take(upto)).len() as int) == live_rows(
            nodes.take(upto),
        ),
    decreases nodes.len(),
{
    let part = live_rows(nodes.take(upto));
    if upto == nodes.len() {
        assert(nodes.take(upto) =~= nodes);
        assert(part.take(part.len() as int) =~= part);
    } else {
        lemma_live_rows_prefix(nodes.drop_last(), upto);
        assert(nodes.drop_last().take(upto) =~= nodes.take(upto));
        assert(live_rows(nodes).take(part.len() as int) =~= part);
    }
}

impl Hnsw {
    /// Rebuild the graph from the live nodes only, dropping all tombstones, and
    /// return the new node count. Node ids are reassigned densely; each live
    /// node's attribute row moves with it.
    pub fn compact<K: Fn(Kernel, &[u32], &[u32]) -> u32, L: Fn(u64, usize) -> usize>(
        &mut self,
        kernel: &K,
        level: &L,
    ) -> (r: Result<usize, HnswError>)
        requires
            old(self).wf(),
            kernel_ok(*kernel),
            level_ok(*level),
            old(self).builder(*kernel, *level).has_room_to_compact(old(self)@),
        ensures
            final(self).wf(),
            final(self)@.layered(),
            final(self)@ == old(self).builder(*kernel, *level).compacted(old(self)@),
            r == Ok::<usize, HnswError>(
                (old(self)@.nodes.len() - old(self)@.deleted_count()) as usize,
            ),
    {
        let ghost g = self@;
        let ghost b = self.builder(*kernel, *level);
        let ghost rows = live_rows(g.nodes);
        let ghost blank = Graph::empty(g.rebuild_params());
        let mut fresh = Hnsw::new(
            HnswParams {
                m: self.m(),
                ef_construction: self.ef_construction(),
                gamma: self.gamma(),
                metric: self.metric(),
                seed: self.seed(),
            },
        );
        proof {
            assert forall|i: int| 0 <= i < g.nodes.len() implies (
            #[trigger] g.nodes[i]).vector.len() == g.dim by {
                assert(g.node_ok(i));
            }
            lemma_live_rows(g.nodes, g.dim);
            assert(g.nodes.take(0) =~= Seq::<Node>::empty());
        }
        let mut id: usize = 0;
        while id < self.len()
            invariant
                self.wf(),
                self@ == g,
                kernel_ok(*kernel),
                level_ok(*level),
                b == self.builder(*kernel, *level),
                b.has_room_to_compact(g),
                rows == live_rows(g.nodes),
                rows.len() <= g.nodes.len(),
                blank == Graph::empty(g.rebuild_params()),
                blank.valid(),
                blank.layered(),
                forall|i: int| 0 <= i < rows.len() ==> (#[trigger] rows[i]).vector.len() == g.dim,
                id <= g.nodes.len(),
                fresh.wf(),
                fresh@.layered(),
                fresh@ == b.insert_all(blank, live_rows(g.nodes.take(id as int))),
            decreases g.nodes.len() - id,
        {
            proof {
                assert(g.nodes.take(id + 1).drop_last() =~= g.nodes.take(id as int));
                assert(g.nodes.take(id + 1).last() == g.nodes[id as int]);
            }
            if !self.is_deleted(id) {
                let vector = slice_to_vec(self.vector(id));
                let attrs = slice_to_vec(self.attrs(id));
                proof {
                    let part = live_rows(g.nodes.take(id as int));
                    let more = live_rows(g.nodes.take(id + 1));
                    lemma_live_rows_prefix(g.nodes, id as int);
                    lemma_live_rows_prefix(g.nodes, id + 1);
                    let k = part.len() as int;
                    assert(more.len() == k + 1);
                    assert(rows.take(k) == part);
                    assert(rows[k] == rows.take(k + 1)[k]);
                    assert(rows[k].vector == vector@);
                    assert forall|i: int| 0 <= i < part.len() implies (
                    #[trigger] part[i]).vector.len() == g.dim by {
                        assert(part[i] == rows.take(k)[i]);
                        assert(part[i] == rows[i]);
                    }
                    assert(g.node_ok(id as int));
                    b.lemma_insert_all(blank, part, g.dim);
                    assert(b.has_room(b.insert_all(blank, rows.take(k)), rows[k].vector));
                    assert(more.drop_last() =~= part);
                }
                fresh.insert_with_attrs(kernel, level, vector, attrs)?;
            }
            id += 1;
        }
        proof {
            assert(g.nodes.take(g.nodes.len() as int) =~= g.nodes);
            if g.nodes.len() > 0 {
                b.lemma_insert_all(blank, rows, g.dim);
            }
        }
        let n: usize = fresh.len();
        *self = fresh;
        Ok(n)
    }
}

/// Node ids of candidates.
fn candidate_ids(found: &[Cand]) -> (out: Vec<usize>)
    ensures
        out@ == ids_of(found@),
{
    let mut out: Vec<usize> = Vec::new();
    let mut i: usize = 0;
    while i < found.len()
        invariant
            i <= found@.len(),
            out@ == ids_of(found@.take(i as int)),
        decreases found@.len() - i,
    {
        out.push(found[i].id);
        i += 1;
        assert(out@ =~= ids_of(found@.take(i as int)));
    }
    assert(found@.take(found@.len() as int) =~= found@);
    out
}

/// Whether `ids` holds `id`.
fn holds_id(ids: &Vec<usize>, id: usize) -> (r: bool)
    ensures
        r == ids@.contains(id),
{
    let mut i: usize = 0;
    while i < ids.len()
        invariant
            i <= ids@.len(),
            forall|k: int| 0 <= k < i ==> #[trigger] ids@[k] != id,
        decreases ids@.len() - i,
    {
        if ids[i] == id {
            assert(ids@[i as int] == id);
            return true;
        }
        i += 1;
    }
    false
}

/// Ids as stored in neighbor lists.
fn narrowed(ids: &[usize]) -> (out: Vec<u32>)
    ensures
        out@ == narrow(ids@),
{
    let mut out: Vec<u32> = Vec::new();
    let mut i: usize = 0;
    while i < ids.len()
        invariant
            i <= ids@.len(),
            out@ == narrow(ids@.take(i as int)),
        decreases ids@.len() - i,
    {
        out.push(#[verifier::truncate] (ids[i] as u32));
        i += 1;
        assert(out@ =~= narrow(ids@.take(i as int)));
    }
    assert(ids@.take(ids@.len() as int) =~= ids@);
    out
}

} // verus!
