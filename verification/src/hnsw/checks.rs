//! Run-time tests of what inserts and rebuilds take for granted.

use super::graph::{fits, layers_of, Graph, Hnsw, Node};
use super::insert::{
    draws, lemma_live_rows, level_ok, level_value, live_rows, xorshift, xorshift64, Builder, Row,
};
use super::params::{clamping_keeps_what_is_in_range, HnswParams};
use vstd::prelude::*;

verus! {

impl Hnsw {
    /// Whether every neighbor of node `id` takes part in the layer it is a
    /// neighbor on.
    fn node_is_layered(&self, id: usize) -> (r: bool)
        requires
            self.wf(),
            id < self@.nodes.len(),
        ensures
            r == (forall|layer: int, i: int|
                0 <= layer < self@.nodes[id as int].layers.len() && 0 <= i
                    < self@.nodes[id as int].layers[layer].len() ==> self@.on_layer(
                    #[trigger] self@.nodes[id as int].layers[layer][i] as int,
                    layer,
                )),
    {
        let ghost node = self@.nodes[id as int];
        let mut layer: usize = 0;
        while layer < self.levels(id)
            invariant
                self.wf(),
                id < self@.nodes.len(),
                node == self@.nodes[id as int],
                layer <= node.layers.len(),
                forall|l: int, i: int|
                    0 <= l < layer && 0 <= i < node.layers[l].len() ==> self@.on_layer(
                        #[trigger] node.layers[l][i] as int,
                        l,
                    ),
            decreases node.layers.len() - layer,
        {
            let list = self.neighbors(id, layer);
            assert(list@ == node.layers[layer as int]);
            let mut i: usize = 0;
            while i < list.len()
                invariant
                    self.wf(),
                    id < self@.nodes.len(),
                    node == self@.nodes[id as int],
                    layer < node.layers.len(),
                    list@ == node.layers[layer as int],
                    i <= list@.len(),
                    forall|l: int, k: int|
                        0 <= l < layer && 0 <= k < node.layers[l].len() ==> self@.on_layer(
                            #[trigger] node.layers[l][k] as int,
                            l,
                        ),
                    forall|k: int|
                        0 <= k < i ==> self@.on_layer(
                            #[trigger] node.layers[layer as int][k] as int,
                            layer as int,
                        ),
                decreases list@.len() - i,
            {
                let neighbor: usize = list[i] as usize;
                assert(node.layers[layer as int][i as int] == neighbor);
                if neighbor >= self.len() || layer >= self.levels(neighbor) {
                    assert(!self@.on_layer(
                        node.layers[layer as int][i as int] as int,
                        layer as int,
                    ));
                    return false;
                }
                i += 1;
            }
            layer += 1;
        }
        true
    }

    /// Whether links stay within their layers, which a decoded graph need not
    /// have and an insert builds on.
    pub fn is_layered(&self) -> (r: bool)
        requires
            self.wf(),
        ensures
            r == self@.layered(),
    {
        let mut id: usize = 0;
        while id < self.len()
            invariant
                self.wf(),
                id <= self@.nodes.len(),
                forall|k: int, layer: int, i: int|
                    0 <= k < id && 0 <= layer < self@.nodes[k].layers.len() && 0 <= i
                        < self@.nodes[k].layers[layer].len() ==> self@.on_layer(
                        #[trigger] self@.nodes[k].layers[layer][i] as int,
                        layer,
                    ),
            decreases self@.nodes.len() - id,
        {
            if !self.node_is_layered(id) {
                return false;
            }
            id += 1;
        }
        true
    }

    /// Whether inserting a vector of `dim` components next fits the machine.
    pub fn can_insert<L: Fn(u64, usize) -> usize>(&self, level: &L, vector: &[u32]) -> (r: bool)
        requires
            self.wf(),
            level_ok(*level),
        ensures
            forall|b: Builder|
                b.level == draws(*level) ==> r == #[trigger] b.has_room(self@, vector@),
    {
        let dim: usize = vector.len();
        if dim == 0 || dim > HnswParams::MAX_DIM || (self.dim() != 0 && dim != self.dim())
            || self.len() >= Self::MAX_NODES {
            return true;
        }
        let mut state: u64 = self.rng();
        let draw: u64 = xorshift64(&mut state) >> 11u64;
        let m: usize = self.m();
        let top: usize = level(draw, m);
        assert(call_ensures(*level, (draw, m), level_value(*level, draw, m)));
        assert(top == draws(*level)(xorshift(self@.rng) >> 11u64, self@.m));
        let n: u128 = self.len() as u128;
        let cap0: u128 = self.max_degree(0) as u128;
        let cap_up: u128 = self.max_degree(1) as u128;
        let layers: u128 = self.layer_total() as u128;
        let slots: u128 = self.slot_total() as u128;
        let limit: u128 = u32::MAX as u128;
        let ghost (g, t) = (self@, top as int);
        if cap0 >= limit || cap_up >= limit || layers + top as u128 + 1 > limit {
            return false;
        }
        proof {
            assert((n + 1) * dim <= 0x1_0000_0000 * 0x1_0000_0000_0000_0000) by (nonlinear_arith)
                requires
                    0 <= n < 0x1_0000_0000,
                    0 <= dim <= 0x1_0000_0000_0000_0000,
            ;
            assert(top * (cap_up + 1) <= 0x1_0000_0000 * 0x1_0000_0000) by (nonlinear_arith)
                requires
                    0 <= top <= 0xffff_ffff,
                    0 <= cap_up < 0xffff_ffff,
            ;
            let (c0, c1, k, l) = (
                g.cap(0) as int,
                g.cap(1) as int,
                g.nodes.len() as int,
                g.layer_total() as int,
            );
            assert((k + 1) * (c0 + 1) + (l + t + 1 - (k + 1)) * (c1 + 1) == k * (c0 + 1) + (l - k)
                * (c1 + 1) + (c0 + 1) + t * (c1 + 1)) by (nonlinear_arith);
        }
        (n + 1) * dim as u128 <= usize::MAX as u128 && slots + (cap0 + 1) + top as u128 * (cap_up
            + 1) <= usize::MAX as u128
    }
}

/// The generator's state after `i` draws.
pub open spec fn rng_after(rng: u64, i: nat) -> u64
    decreases i,
{
    if i == 0 {
        rng
    } else {
        xorshift(rng_after(rng, (i - 1) as nat))
    }
}

/// Layers that the first `i` nodes of a build have in all.
pub open spec fn layers_after(b: Builder, m: nat, rng: u64, i: nat) -> nat
    decreases i,
{
    if i == 0 {
        0
    } else {
        layers_after(b, m, rng, (i - 1) as nat) + (b.level)(rng_after(rng, i) >> 11u64, m) + 1
    }
}

impl Builder {
    /// What a build has come to after `i` rows, whatever the distances.
    proof fn lemma_build_size(self, g: Graph, i: int)
        requires
            g.valid(),
            0 <= i <= live_rows(g.nodes).len(),
        ensures
            ({
                let h = self.insert_all(
                    Graph::empty(g.rebuild_params()),
                    live_rows(g.nodes).take(i),
                );
                &&& h.nodes.len() == i
                &&& h.rng == rng_after(g.seed, i as nat)
                &&& h.layer_total() == layers_after(self, g.m, g.seed, i as nat)
                &&& h.m == g.m
                &&& h.gamma == g.gamma
                &&& h.dim == (if i == 0 {
                    0
                } else {
                    g.dim
                })
                &&& h.valid()
                &&& h.layered()
            }),
            forall|k: int|
                0 <= k < live_rows(g.nodes).len() ==> (
                #[trigger] live_rows(g.nodes)[k]).vector.len() == g.dim,
            live_rows(g.nodes).len() <= g.nodes.len(),
        decreases i,
    {
        let rows = live_rows(g.nodes);
        let blank = Graph::empty(g.rebuild_params());
        assert forall|k: int| 0 <= k < g.nodes.len() implies (#[trigger] g.nodes[k]).vector.len()
            == g.dim by {
            assert(g.node_ok(k));
        }
        lemma_live_rows(g.nodes, g.dim);
        if i == 0 {
            clamping_keeps_what_is_in_range(g.gamma);
            assert(rows.take(0) =~= Seq::<Row>::empty());
            assert(self.insert_all(blank, rows.take(0)) == blank);
        } else {
            self.lemma_build_size(g, i - 1);
            let before = self.insert_all(blank, rows.take(i - 1));
            let row = rows[i - 1];
            assert(rows.take(i).drop_last() =~= rows.take(i - 1));
            assert(rows.take(i).last() == row);
            let after = self.inserted(before, row.vector, row.attrs);
            let with = self.placed(
                self.drawn(before, g.dim),
                row.vector,
                row.attrs,
                self.next_level(before),
            );
            self.lemma_inserted(before, row.vector, row.attrs);
            assert(row.vector.len() == g.dim);
            assert(self.insert_result(before, row.vector) is Ok);
            assert(after.same_frame(with));
            lemma_same_layers(after.nodes, with.nodes);
            assert(with.nodes.drop_last() =~= before.nodes);
        }
    }
}

/// Nodes with the same layer counts have the same layers in all.
proof fn lemma_same_layers(x: Seq<Node>, y: Seq<Node>)
    requires
        x.len() == y.len(),
        forall|i: int| 0 <= i < x.len() ==> (#[trigger] x[i]).layers.len() == y[i].layers.len(),
    ensures
        layers_of(x) == layers_of(y),
    decreases x.len(),
{
    if x.len() > 0 {
        let (a, b) = (x.drop_last(), y.drop_last());
        assert forall|i: int| 0 <= i < a.len() implies (#[trigger] a[i]).layers.len()
            == b[i].layers.len() by {
            assert(a[i] == x[i]);
        }
        lemma_same_layers(a, b);
        assert(x[x.len() - 1].layers.len() == y.last().layers.len());
    }
}

/// Insert `i` of a rebuild fits the machine.
spec fn step_fits(g: Graph, b: Builder, i: int) -> bool {
    &&& fits(
        (i + 1) as nat,
        layers_after(b, g.m, g.seed, (i + 1) as nat),
        g.dim,
        g.cap(0),
        g.cap(1),
    )
    &&& g.cap(0) < u32::MAX
    &&& g.cap(1) < u32::MAX
}

impl Builder {
    proof fn lemma_room_to_compact(self, g: Graph)
        requires
            g.valid(),
        ensures
            self.has_room_to_compact(g) <==> forall|i: int|
                0 <= i < live_rows(g.nodes).len() ==> #[trigger] step_fits(g, self, i),
    {
        let rows = live_rows(g.nodes);
        let blank = Graph::empty(g.rebuild_params());
        assert forall|i: int| 0 <= i < rows.len() implies #[trigger] step_fits(g, self, i)
            == self.has_room(self.insert_all(blank, rows.take(i)), rows[i].vector) by {
            self.lemma_build_size(g, i);
            assert(rows[i].vector.len() == g.dim);
            assert(rng_after(g.seed, (i + 1) as nat) == xorshift(rng_after(g.seed, i as nat)));
        }
        if self.has_room_to_compact(g) {
            assert forall|i: int| 0 <= i < rows.len() implies #[trigger] step_fits(g, self, i) by {
                assert(self.has_room(self.insert_all(blank, rows.take(i)), rows[i].vector));
            }
        }
        if forall|i: int| 0 <= i < rows.len() ==> #[trigger] step_fits(g, self, i) {
            assert forall|i: int| 0 <= i < rows.len() implies self.has_room(
                #[trigger] self.insert_all(blank, rows.take(i)),
                rows[i].vector,
            ) by {
                assert(step_fits(g, self, i));
            }
        }
    }
}

impl Hnsw {
    /// Whether every insert of a rebuild fits the machine. Draws the levels that
    /// the rebuild will draw, and builds nothing.
    pub fn can_compact<L: Fn(u64, usize) -> usize>(&self, level: &L) -> (r: bool)
        requires
            self.wf(),
            level_ok(*level),
        ensures
            forall|b: Builder|
                b.level == draws(*level) ==> r == #[trigger] b.has_room_to_compact(self@),
    {
        let live: usize = self.live_len();
        let dim: u128 = self.dim() as u128;
        let m: usize = self.m();
        let cap0: u128 = self.max_degree(0) as u128;
        let cap_up: u128 = self.max_degree(1) as u128;
        let limit: u128 = u32::MAX as u128;
        let mut state: u64 = self.seed();
        let mut layers: u128 = 0;
        let mut i: usize = 0;
        let ghost g = self@;
        let ghost any = Builder { dist: |x: Seq<u32>, y: Seq<u32>| 0u32, level: draws(*level) };
        proof {
            self.lemma_node_count();
            assert forall|k: int| 0 <= k < g.nodes.len() implies (
            #[trigger] g.nodes[k]).vector.len() == g.dim by {
                assert(g.node_ok(k));
            }
            lemma_live_rows(g.nodes, g.dim);
            assert forall|b: Builder| b.level == draws(*level) implies (forall|k: int|
                0 <= k < live ==> #[trigger] step_fits(g, any, k))
                == #[trigger] b.has_room_to_compact(g) by {
                b.lemma_room_to_compact(g);
                assert forall|k: int| 0 <= k implies #[trigger] step_fits(g, any, k)
                    == step_fits(g, b, k) by {
                    lemma_layers_same(any, b, g.m, g.seed, (k + 1) as nat);
                }
                if forall|k: int| 0 <= k < live ==> #[trigger] step_fits(g, any, k) {
                    assert forall|k: int| 0 <= k < live implies #[trigger] step_fits(g, b, k) by {
                        assert(step_fits(g, any, k));
                    }
                }
            }
        }
        while i < live
            invariant
                self.wf(),
                self@ == g,
                level_ok(*level),
                any.level == draws(*level),
                live <= g.nodes.len() <= Self::MAX_NODES,
                i <= live,
                dim == g.dim,
                dim <= usize::MAX,
                m == g.m,
                cap0 == g.cap(0),
                cap_up == g.cap(1),
                limit == u32::MAX,
                layers <= u32::MAX,
                state == rng_after(g.seed, i as nat),
                layers == layers_after(any, g.m, g.seed, i as nat),
                layers >= i,
                forall|k: int| 0 <= k < i ==> #[trigger] step_fits(g, any, k),
                forall|b: Builder|
                    b.level == draws(*level) ==> (forall|k: int|
                        0 <= k < live ==> #[trigger] step_fits(g, any, k))
                        == #[trigger] b.has_room_to_compact(g),
            decreases live - i,
        {
            let draw: u64 = xorshift64(&mut state) >> 11u64;
            let top: usize = level(draw, m);
            proof {
                assert(call_ensures(*level, (draw, m), level_value(*level, draw, m)));
                assert(state == rng_after(g.seed, (i + 1) as nat));
                assert(top == (any.level)(draw, g.m));
                assert(layers_after(any, g.m, g.seed, (i + 1) as nat) == layers + top + 1);
            }
            if cap0 >= limit || cap_up >= limit || layers + top as u128 + 1 > limit {
                assert(!step_fits(g, any, i as int));
                return false;
            }
            layers = layers + top as u128 + 1;
            let n: u128 = i as u128 + 1;
            let up: u128 = layers - n;
            proof {
                assert(n * dim <= 0x1_0000_0000 * 0x1_0000_0000_0000_0000) by (nonlinear_arith)
                    requires
                        0 <= n <= 0x1_0000_0000,
                        0 <= dim <= 0x1_0000_0000_0000_0000,
                ;
                assert(n * (cap0 + 1) <= 0x1_0000_0000 * 0x1_0000_0000) by (nonlinear_arith)
                    requires
                        0 <= n <= 0x1_0000_0000,
                        0 <= cap0 < 0xffff_ffff,
                ;
                assert(up * (cap_up + 1) <= 0x1_0000_0000 * 0x1_0000_0000) by (nonlinear_arith)
                    requires
                        0 <= up <= 0xffff_ffff,
                        0 <= cap_up < 0xffff_ffff,
                ;
            }
            if n * dim > usize::MAX as u128 || n * (cap0 + 1) + up * (cap_up + 1)
                > usize::MAX as u128 {
                assert(!step_fits(g, any, i as int));
                return false;
            }
            assert(step_fits(g, any, i as int));
            i += 1;
        }
        true
    }
}

/// Layer counts depend on the level draws only.
proof fn lemma_layers_same(a: Builder, b: Builder, m: nat, rng: u64, i: nat)
    requires
        a.level == b.level,
    ensures
        layers_after(a, m, rng, i) == layers_after(b, m, rng, i),
    decreases i,
{
    if i > 0 {
        lemma_layers_same(a, b, m, rng, (i - 1) as nat);
    }
}

} // verus!
