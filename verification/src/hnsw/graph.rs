//! The graph's value and its flat storage.
//!
//! [`Graph`] is what an index holds, as mathematics: a sequence of nodes, each
//! with a vector, one neighbor list per layer, an attribute row and a tombstone
//! flag. [`Hnsw`] stores that value in a handful of flat arrays: vectors end to
//! end, neighbor lists in fixed-width slot runs. Everything outside this module
//! speaks of the value; this module is where the two are tied together.

use super::params::{
    degree_cap, derived_params, ef_floor, effective_gamma, gamma_in_range, scale_degree, HnswError,
    HnswParams, DEFAULT_SEED,
};
use crate::filter::AttrValue;
use crate::vector::Metric;
use vstd::prelude::*;
use vstd::slice::slice_subrange;

verus! {

/// One node of a graph.
#[verifier::ext_equal]
pub struct Node {
    /// Vector components, as `f32` bits.
    pub vector: Seq<u32>,
    /// Neighbor ids per layer; a node takes part in the layers it has a list for.
    pub layers: Seq<Seq<u32>>,
    /// Filterable attribute row.
    pub attrs: Seq<AttrValue>,
    /// Whether the node is tombstoned: it routes but is never returned.
    pub deleted: bool,
}

/// The value of an index.
#[verifier::ext_equal]
pub struct Graph {
    pub metric: Metric,
    /// Base degree.
    pub m: nat,
    /// Density in effect, as `f32` bits.
    pub gamma: u32,
    /// Candidate pool of a build.
    pub ef_construction: nat,
    /// Dimensionality; 0 until the first insert fixes it.
    pub dim: nat,
    /// Seed the level generator started from.
    pub seed: u64,
    /// State of the level generator.
    pub rng: u64,
    pub entry_point: Option<usize>,
    pub max_layer: nat,
    pub nodes: Seq<Node>,
}

impl Graph {
    /// The graph [`Hnsw::new`] makes of its parameters.
    pub open spec fn empty(params: HnswParams) -> Graph {
        let m: nat = if params.m < 2 { 2 } else { params.m as nat };
        let gamma = effective_gamma(params.gamma);
        let seed = if params.seed == 0 { DEFAULT_SEED } else { params.seed };
        Graph {
            metric: params.metric,
            m,
            gamma,
            ef_construction: if params.ef_construction < ef_floor(m, gamma) {
                ef_floor(m, gamma)
            } else {
                params.ef_construction as nat
            },
            dim: 0,
            seed,
            rng: seed,
            entry_point: None,
            max_layer: 0,
            nodes: Seq::empty(),
        }
    }

    /// Degree cap of a layer.
    pub open spec fn cap(self, layer: int) -> nat {
        if layer == 0 {
            degree_cap(2 * self.m, self.gamma)
        } else {
            degree_cap(self.m, self.gamma)
        }
    }

    /// Node `id`'s neighbors on `layer`; none where the node or its layer does
    /// not exist.
    pub open spec fn neighbors(self, id: int, layer: int) -> Seq<u32> {
        if 0 <= id < self.nodes.len() && 0 <= layer < self.nodes[id].layers.len() {
            self.nodes[id].layers[layer]
        } else {
            Seq::empty()
        }
    }

    /// Node `id`'s attribute row; empty for an unknown id.
    pub open spec fn attrs(self, id: int) -> Seq<AttrValue> {
        if 0 <= id < self.nodes.len() {
            self.nodes[id].attrs
        } else {
            Seq::empty()
        }
    }

    /// The parameters are in range and agree with each other.
    pub open spec fn params_ok(self) -> bool {
        &&& 2 <= self.m <= usize::MAX / 2
        &&& gamma_in_range(self.gamma)
        &&& ef_floor(self.m, self.gamma) <= self.ef_construction <= usize::MAX
        &&& self.dim <= HnswParams::MAX_DIM
        &&& self.seed != 0
        &&& self.rng != 0
    }

    /// A neighbor list names existing nodes and respects the degree cap.
    pub open spec fn list_ok(self, layer: int, list: Seq<u32>) -> bool {
        &&& list.len() <= self.cap(layer)
        &&& forall|i: int| 0 <= i < list.len() ==> (#[trigger] list[i]) < self.nodes.len()
    }

    /// A node has the graph's dimensionality, at least one layer and none above
    /// the top, and proper neighbor lists.
    pub open spec fn node_ok(self, id: int) -> bool {
        let node = self.nodes[id];
        &&& node.vector.len() == self.dim
        &&& 1 <= node.layers.len() <= self.max_layer + 1
        &&& forall|layer: int|
            0 <= layer < node.layers.len() ==> self.list_ok(layer, #[trigger] node.layers[layer])
    }

    /// The entry point owns the top layer; only an empty graph has none.
    pub open spec fn entry_ok(self) -> bool {
        match self.entry_point {
            Some(e) => e < self.nodes.len() && self.nodes[e as int].layers.len() == self.max_layer
                + 1,
            None => self.nodes.len() == 0 && self.max_layer == 0,
        }
    }

    /// What every index is.
    pub open spec fn valid(self) -> bool {
        &&& self.params_ok()
        &&& self.nodes.len() <= Hnsw::MAX_NODES
        &&& self.nodes.len() > 0 ==> self.dim > 0
        &&& self.entry_ok()
        &&& forall|id: int| 0 <= id < self.nodes.len() ==> #[trigger] self.node_ok(id)
    }

    /// Node `id` takes part in `layer`.
    pub open spec fn on_layer(self, id: int, layer: int) -> bool {
        0 <= id < self.nodes.len() && layer < self.nodes[id].layers.len()
    }

    /// Links stay within their layer: a neighbor on a layer takes part in it.
    /// Building keeps this; a decoded graph need not have it.
    pub open spec fn layered(self) -> bool {
        forall|id: int, layer: int, i: int|
            0 <= id < self.nodes.len() && 0 <= layer < self.nodes[id].layers.len() && 0 <= i
                < self.nodes[id].layers[layer].len() ==> self.on_layer(
                #[trigger] self.nodes[id].layers[layer][i] as int,
                layer,
            )
    }

    /// Layers over all nodes.
    pub open spec fn layer_total(self) -> nat {
        layers_of(self.nodes)
    }

    /// The same graph with one neighbor list replaced.
    pub open spec fn with_links(self, id: int, layer: int, list: Seq<u32>) -> Graph {
        Graph {
            nodes: self.nodes.update(
                id,
                Node {
                    layers: self.nodes[id].layers.update(layer, list),
                    ..self.nodes[id]
                },
            ),
            ..self
        }
    }

    /// The same graph with one more node, unconnected, on `levels` layers.
    pub open spec fn with_node(
        self,
        vector: Seq<u32>,
        attrs: Seq<AttrValue>,
        levels: nat,
    ) -> Graph {
        Graph {
            nodes: self.nodes.push(
                Node {
                    vector,
                    layers: Seq::new(levels, |l: int| Seq::<u32>::empty()),
                    attrs,
                    deleted: false,
                },
            ),
            ..self
        }
    }
}

/// Layers over a run of nodes.
pub open spec fn layers_of(nodes: Seq<Node>) -> nat
    decreases nodes.len(),
{
    if nodes.len() == 0 {
        0
    } else {
        layers_of(nodes.drop_last()) + nodes.last().layers.len()
    }
}

/// Whether `nodes` nodes with `layers` layers in all, at these caps and this
/// dimensionality, fit the machine: layer offsets are 32-bit, and array lengths
/// are `usize`.
pub open spec fn fits(nodes: nat, layers: nat, dim: nat, cap0: nat, cap_up: nat) -> bool {
    &&& layers <= u32::MAX
    &&& nodes * dim <= usize::MAX
    &&& nodes * (cap0 + 1) + (layers - nodes) * (cap_up + 1) <= usize::MAX
}

/// In-memory HNSW graph.
pub struct Hnsw {
    metric: Metric,
    m: usize,
    gamma: u32,
    /// Degree cap for upper layers.
    m_cap: usize,
    /// Degree cap for layer 0.
    m0_cap: usize,
    ef_construction: usize,
    dim: usize,
    seed: u64,
    /// Node count. Kept explicitly because the length of `vectors` does not give
    /// it when `dim` is 0.
    n: usize,
    /// Every node's components end to end, strided by `dim`.
    vectors: Vec<u32>,
    /// Prefix sum of per-node layer counts, `n + 1` entries: node `id` owns
    /// layers `layer_base[id] .. layer_base[id + 1]`.
    layer_base: Vec<u32>,
    /// Live neighbor count per (node, layer), indexed by `layer_base[id] + layer`.
    link_counts: Vec<u32>,
    /// Neighbor ids in fixed-width slot runs. A run is one wider than the degree
    /// cap, because an insert appends before it prunes. Slots past a layer's live
    /// count hold no meaning.
    links: Vec<u32>,
    /// Attribute rows by node id.
    attrs: Vec<Vec<AttrValue>>,
    /// Tombstone flags by node id.
    deleted: Vec<bool>,
    entry_point: Option<usize>,
    max_layer: usize,
    rng: u64,
}

/// Start of the slot run of (`id`, `layer`), given the layer offsets and the run
/// widths of layer 0 and of the layers above.
spec fn slot(base: Seq<u32>, w0: int, w1: int, id: int, layer: int) -> int {
    id * w0 + (base[id] - id) * w1 + (if layer == 0 {
        0
    } else {
        w0 + (layer - 1) * w1
    })
}

/// Run width of a layer.
spec fn run(w0: int, w1: int, layer: int) -> int {
    if layer == 0 {
        w0
    } else {
        w1
    }
}

/// Layer offsets start at 0 and grow with every node.
spec fn offsets_ok(base: Seq<u32>, n: int) -> bool {
    &&& base.len() == n + 1
    &&& base[0] == 0
    &&& forall|i: int, j: int|
        0 <= i < j <= n ==> #[trigger] base[i] < #[trigger] base[j]
}

/// Offsets grow by at least one per node.
proof fn lemma_offsets_grow(base: Seq<u32>, n: int, i: int, j: int)
    requires
        offsets_ok(base, n),
        0 <= i <= j <= n,
    ensures
        base[j] - base[i] >= j - i,
    decreases j - i,
{
    if i < j {
        lemma_offsets_grow(base, n, i, j - 1);
    }
}

/// Every slot run lies within the link array.
proof fn lemma_slot_within(base: Seq<u32>, n: int, w0: int, w1: int, id: int, layer: int)
    requires
        offsets_ok(base, n),
        w0 >= 1,
        w1 >= 1,
        0 <= id < n,
        0 <= layer < base[id + 1] - base[id],
    ensures
        0 <= slot(base, w0, w1, id, layer),
        slot(base, w0, w1, id, layer) + run(w0, w1, layer) <= (id + 1) * w0 + (base[id + 1] - (id
            + 1)) * w1,
        (id + 1) * w0 + (base[id + 1] - (id + 1)) * w1 <= n * w0 + (base[n] - n) * w1,
        id * w0 + (base[id] - id) * w1 >= 0,
        id * w0 >= 0,
        (base[id] - id) * w1 >= 0,
        layer > 0 ==> w0 + w1 <= n * w0 + (base[n] - n) * w1,
        w0 <= n * w0 + (base[n] - n) * w1,
        base[id] > id ==> w1 <= n * w0 + (base[n] - n) * w1,
{
    lemma_offsets_grow(base, n, 0, id);
    lemma_offsets_grow(base, n, id + 1, n);
    lemma_offsets_grow(base, n, 0, id + 1);
    let up = base[id] - id;
    let up2 = base[id + 1] - (id + 1);
    let upn = base[n] - n;
    assert(up2 >= up + layer && up >= 0 && upn >= up2);
    assert(id * w0 >= 0 && up * w1 >= 0) by (nonlinear_arith)
        requires
            id >= 0,
            up >= 0,
            w0 >= 1,
            w1 >= 1,
    ;
    assert((id + 1) * w0 == id * w0 + w0) by (nonlinear_arith);
    assert(up2 * w1 >= (up + layer) * w1) by (nonlinear_arith)
        requires
            up2 >= up + layer,
            w1 >= 1,
    ;
    assert((up + layer) * w1 == up * w1 + layer * w1) by (nonlinear_arith);
    assert((layer - 1) * w1 == layer * w1 - w1) by (nonlinear_arith);
    assert(layer * w1 >= 0) by (nonlinear_arith)
        requires
            layer >= 0,
            w1 >= 1,
    ;
    if layer > 0 {
        assert((layer - 1) * w1 >= 0) by (nonlinear_arith)
            requires
                layer > 0,
                w1 >= 1,
        ;
    }
    assert(upn * w1 >= up2 * w1) by (nonlinear_arith)
        requires
            upn >= up2,
            w1 >= 1,
    ;
    assert(n * w0 >= (id + 1) * w0) by (nonlinear_arith)
        requires
            n >= id + 1,
            w0 >= 1,
    ;
    if base[id] > id {
        assert(up * w1 >= w1) by (nonlinear_arith)
            requires
                up >= 1,
                w1 >= 1,
        ;
    }
}

/// Slot runs of different (node, layer) pairs do not overlap.
proof fn lemma_slots_apart(
    base: Seq<u32>,
    n: int,
    w0: int,
    w1: int,
    id: int,
    layer: int,
    id2: int,
    layer2: int,
)
    requires
        offsets_ok(base, n),
        w0 >= 1,
        w1 >= 1,
        0 <= id < n,
        0 <= layer < base[id + 1] - base[id],
        0 <= id2 < n,
        0 <= layer2 < base[id2 + 1] - base[id2],
        id < id2 || (id == id2 && layer < layer2),
    ensures
        slot(base, w0, w1, id, layer) + run(w0, w1, layer) <= slot(base, w0, w1, id2, layer2),
{
    if id == id2 {
        if layer == 0 {
            assert((layer2 - 1) * w1 >= 0) by (nonlinear_arith)
                requires
                    layer2 >= 1,
                    w1 >= 1,
            ;
        } else {
            assert((layer2 - 1) * w1 >= (layer - 1) * w1 + w1) by (nonlinear_arith)
                requires
                    layer2 >= layer + 1,
                    w1 >= 1,
            ;
        }
    } else {
        lemma_slot_within(base, n, w0, w1, id, layer);
        lemma_slot_within(base, n, w0, w1, id2, layer2);
        lemma_offsets_grow(base, n, id + 1, id2);
        assert(id2 * w0 >= (id + 1) * w0) by (nonlinear_arith)
            requires
                id2 >= id + 1,
                w0 >= 1,
        ;
        let a = base[id + 1] - (id + 1);
        let b = base[id2] - id2;
        assert(b * w1 >= a * w1) by (nonlinear_arith)
            requires
                b >= a,
                w1 >= 1,
        ;
        if layer2 > 0 {
            assert((layer2 - 1) * w1 >= 0) by (nonlinear_arith)
                requires
                    layer2 >= 1,
                    w1 >= 1,
            ;
        }
    }
}

impl View for Hnsw {
    type V = Graph;

    closed spec fn view(&self) -> Graph {
        Graph {
            metric: self.metric,
            m: self.m as nat,
            gamma: self.gamma,
            ef_construction: self.ef_construction as nat,
            dim: self.dim as nat,
            seed: self.seed,
            rng: self.rng,
            entry_point: self.entry_point,
            max_layer: self.max_layer as nat,
            nodes: Seq::new(self.n as nat, |id: int| self.stored_node(id)),
        }
    }
}

impl Hnsw {
    /// Largest node count 32-bit ids can address.
    pub const MAX_NODES: usize = 0xffff_ffff;

    spec fn w0(&self) -> int {
        self.m0_cap + 1
    }

    spec fn w1(&self) -> int {
        self.m_cap + 1
    }

    spec fn spec_levels(&self, id: int) -> int {
        self.layer_base@[id + 1] - self.layer_base@[id]
    }

    spec fn spec_slot(&self, id: int, layer: int) -> int {
        slot(self.layer_base@, self.w0(), self.w1(), id, layer)
    }

    spec fn count(&self, id: int, layer: int) -> int {
        self.link_counts@[self.layer_base@[id] + layer] as int
    }

    spec fn stored_list(&self, id: int, layer: int) -> Seq<u32> {
        let start = self.spec_slot(id, layer);
        self.links@.subrange(start, start + self.count(id, layer))
    }

    spec fn stored_node(&self, id: int) -> Node {
        Node {
            vector: self.vectors@.subrange(id * self.dim, id * self.dim + self.dim),
            layers: Seq::new(
                self.spec_levels(id) as nat,
                |layer: int| self.stored_list(id, layer),
            ),
            attrs: self.attrs@[id]@,
            deleted: self.deleted@[id],
        }
    }

    /// The arrays agree with each other: lengths match, offsets grow, and every
    /// live neighbor count fits its slot run.
    pub closed spec fn stored(&self) -> bool {
        &&& self.n <= Self::MAX_NODES
        &&& self.m_cap == degree_cap(self.m as nat, self.gamma)
        &&& self.m0_cap == degree_cap(2 * self.m as nat, self.gamma)
        &&& self.vectors@.len() == self.n * self.dim
        &&& offsets_ok(self.layer_base@, self.n as int)
        &&& self.link_counts@.len() == self.layer_base@[self.n as int]
        &&& self.links@.len() == self.n * self.w0() + (self.layer_base@[self.n as int] - self.n)
            * self.w1()
        &&& self.attrs@.len() == self.n
        &&& self.deleted@.len() == self.n
        &&& forall|id: int, layer: int|
            0 <= id < self.n && 0 <= layer < self.spec_levels(id)
                ==> #[trigger] self.count(id, layer) <= run(self.w0(), self.w1(), layer)
    }

    /// What every index is, and that its arrays hold it.
    pub open spec fn wf(&self) -> bool {
        self.stored() && self@.valid()
    }

    /// Create an empty index. `m` is clamped to at least 2 and the density to
    /// `[1, MAX_GAMMA]`; a zero seed stands for the default one; dimensionality
    /// is fixed by the first inserted vector.
    pub fn new(params: HnswParams) -> (h: Self)
        requires
            params.m <= usize::MAX / 2,
        ensures
            h.wf(),
            h@ == Graph::empty(params),
            h@.layered(),
    {
        let m: usize = if params.m < 2 { 2 } else { params.m };
        let (gamma, m_cap, m0_cap, floor) = derived_params(m, params.gamma);
        let seed: u64 = if params.seed == 0 { DEFAULT_SEED } else { params.seed };
        let ef_construction: usize = if params.ef_construction < floor {
            floor
        } else {
            params.ef_construction
        };
        let mut layer_base: Vec<u32> = Vec::new();
        layer_base.push(0);
        let h = Hnsw {
            metric: params.metric,
            m,
            gamma,
            m_cap,
            m0_cap,
            ef_construction,
            dim: 0,
            seed,
            n: 0,
            vectors: Vec::new(),
            layer_base,
            link_counts: Vec::new(),
            links: Vec::new(),
            attrs: Vec::new(),
            deleted: Vec::new(),
            entry_point: None,
            max_layer: 0,
            rng: seed,
        };
        assert(h@.nodes =~= Seq::<Node>::empty());
        h
    }

    /// Number of nodes, tombstoned ones included.
    pub fn len(&self) -> (r: usize)
        ensures
            r == self@.nodes.len(),
    {
        self.n
    }

    /// Whether the graph has no nodes.
    pub fn is_empty(&self) -> (r: bool)
        ensures
            r == (self@.nodes.len() == 0),
    {
        self.n == 0
    }

    /// Dimensionality; 0 until the first insert.
    pub fn dim(&self) -> (r: usize)
        ensures
            r == self@.dim,
    {
        self.dim
    }

    pub fn metric(&self) -> (r: Metric)
        ensures
            r == self@.metric,
    {
        self.metric
    }

    /// Base degree, after the clamp [`Hnsw::new`] applies.
    pub fn m(&self) -> (r: usize)
        ensures
            r == self@.m,
    {
        self.m
    }

    /// Build-time candidate pool, after [`Hnsw::new`] raised it to the floor the
    /// degree caps set.
    pub fn ef_construction(&self) -> (r: usize)
        ensures
            r == self@.ef_construction,
    {
        self.ef_construction
    }

    /// Density in effect, as `f32` bits.
    pub fn gamma(&self) -> (r: u32)
        ensures
            r == self@.gamma,
    {
        self.gamma
    }

    /// Seed the level generator started from.
    pub fn seed(&self) -> (r: u64)
        ensures
            r == self@.seed,
    {
        self.seed
    }

    /// State of the level generator.
    pub fn rng(&self) -> (r: u64)
        ensures
            r == self@.rng,
    {
        self.rng
    }

    /// Node a search starts from; none in an empty graph.
    pub fn entry_point(&self) -> (r: Option<usize>)
        ensures
            r == self@.entry_point,
    {
        self.entry_point
    }

    /// Topmost layer in use.
    pub fn max_layer(&self) -> (r: usize)
        ensures
            r == self@.max_layer,
    {
        self.max_layer
    }

    /// Degree cap of a layer.
    pub fn max_degree(&self, layer: usize) -> (r: usize)
        requires
            self.stored(),
        ensures
            r == self@.cap(layer as int),
    {
        if layer == 0 {
            self.m0_cap
        } else {
            self.m_cap
        }
    }

    /// Attribute row stored for `id`. An unknown id or an attribute-free node
    /// yields an empty row, so a predicate over a missing column does not match.
    pub fn attrs(&self, id: usize) -> (r: &[AttrValue])
        requires
            self.stored(),
        ensures
            r@ == self@.attrs(id as int),
    {
        if id < self.n {
            self.attrs[id].as_slice()
        } else {
            &[]
        }
    }

    /// Whether node `id` is tombstoned.
    pub fn is_deleted(&self, id: usize) -> (r: bool)
        requires
            self.stored(),
            id < self@.nodes.len(),
        ensures
            r == self@.nodes[id as int].deleted,
    {
        self.deleted[id]
    }

    /// Layers node `id` takes part in.
    pub fn levels(&self, id: usize) -> (r: usize)
        requires
            self.stored(),
            id < self@.nodes.len(),
        ensures
            r == self@.nodes[id as int].layers.len(),
    {
        (self.layer_base[id + 1] - self.layer_base[id]) as usize
    }

    /// Node `id`'s vector.
    pub fn vector(&self, id: usize) -> (r: &[u32])
        requires
            self.stored(),
            id < self@.nodes.len(),
        ensures
            r@ == self@.nodes[id as int].vector,
    {
        proof {
            lemma_stride(id as int, self.n as int, self.dim as int);
            assert(self.vectors.len() == self.vectors@.len());
        }
        let start: usize = id * self.dim;
        slice_subrange(self.vectors.as_slice(), start, start + self.dim)
    }

    /// Start of node `id`'s slots for `layer`.
    fn layer_slot(&self, id: usize, layer: usize) -> (r: usize)
        requires
            self.stored(),
            id < self.n,
            layer < self.spec_levels(id as int),
        ensures
            r == self.spec_slot(id as int, layer as int),
            r + run(self.w0(), self.w1(), layer as int) <= self.links@.len(),
    {
        proof {
            lemma_slot_within(
                self.layer_base@,
                self.n as int,
                self.w0(),
                self.w1(),
                id as int,
                layer as int,
            );
            lemma_offsets_grow(self.layer_base@, self.n as int, 0, id as int);
            assert(self.links.len() == self.links@.len());
        }
        let upper: usize = self.layer_base[id] as usize - id;
        let w0: usize = self.m0_cap + 1;
        let mut start: usize = id * w0;
        if upper > 0 {
            start = start + upper * (self.m_cap + 1);
        } else {
            assert(0 * self.w1() == 0);
        }
        if layer > 0 {
            start = start + w0 + (layer - 1) * (self.m_cap + 1);
        }
        start
    }

    /// Node `id`'s neighbors on `layer`; none where the node or its layer does
    /// not exist.
    pub fn neighbors(&self, id: usize, layer: usize) -> (r: &[u32])
        requires
            self.stored(),
        ensures
            r@ == self@.neighbors(id as int, layer as int),
    {
        if id >= self.n || layer >= self.levels(id) {
            return &[];
        }
        let start: usize = self.layer_slot(id, layer);
        proof {
            self.lemma_count_index(id as int, layer as int);
            assert(self.links.len() == self.links@.len());
        }
        let count: usize = self.link_counts[self.layer_base[id] as usize + layer] as usize;
        assert(count == self.count(id as int, layer as int));
        slice_subrange(self.links.as_slice(), start, start + count)
    }

    /// Every (node, layer) pair has a counter of its own.
    proof fn lemma_count_index(&self, id: int, layer: int)
        requires
            self.stored(),
            0 <= id < self.n,
            0 <= layer < self.spec_levels(id),
        ensures
            0 <= self.layer_base@[id] + layer < self.link_counts@.len(),
            forall|id2: int, layer2: int|
                #![trigger self.count(id2, layer2)]
                0 <= id2 < self.n && 0 <= layer2 < self.spec_levels(id2) && self.layer_base@[id2]
                    + layer2 == self.layer_base@[id] + layer ==> id2 == id && layer2 == layer,
    {
    }
}

impl Hnsw {
    /// The two differ at most in their link arrays.
    spec fn differs_in_links(&self, other: &Hnsw) -> bool {
        &&& self.metric == other.metric
        &&& self.m == other.m
        &&& self.gamma == other.gamma
        &&& self.m_cap == other.m_cap
        &&& self.m0_cap == other.m0_cap
        &&& self.ef_construction == other.ef_construction
        &&& self.dim == other.dim
        &&& self.seed == other.seed
        &&& self.n == other.n
        &&& self.vectors == other.vectors
        &&& self.layer_base == other.layer_base
        &&& self.attrs == other.attrs
        &&& self.deleted == other.deleted
        &&& self.entry_point == other.entry_point
        &&& self.max_layer == other.max_layer
        &&& self.rng == other.rng
    }

    /// Rewriting one slot run and its counter replaces one neighbor list.
    proof fn lemma_relink(pre: &Hnsw, post: &Hnsw, id: int, layer: int, list: Seq<u32>)
        requires
            pre.stored(),
            pre.differs_in_links(post),
            0 <= id < pre.n,
            0 <= layer < pre.spec_levels(id),
            list.len() <= run(pre.w0(), pre.w1(), layer),
            list.len() <= u32::MAX,
            post.link_counts@ == pre.link_counts@.update(
                pre.layer_base@[id] + layer,
                list.len() as u32,
            ),
            post.links@.len() == pre.links@.len(),
            forall|k: int|
                0 <= k < pre.links@.len() && !(pre.spec_slot(id, layer) <= k < pre.spec_slot(
                    id,
                    layer,
                ) + run(pre.w0(), pre.w1(), layer)) ==> #[trigger] post.links@[k] == pre.links@[k],
            forall|k: int|
                0 <= k < list.len() ==> post.links@[pre.spec_slot(id, layer) + k]
                    == #[trigger] list[k],
        ensures
            post.stored(),
            post@ == pre@.with_links(id, layer, list),
    {
        pre.lemma_count_index(id, layer);
        let (b, n, w0, w1) = (pre.layer_base@, pre.n as int, pre.w0(), pre.w1());
        lemma_slot_within(b, n, w0, w1, id, layer);
        assert forall|id2: int, layer2: int|
            0 <= id2 < post.n && 0 <= layer2 < post.spec_levels(
                id2,
            ) implies #[trigger] post.count(id2, layer2) <= run(post.w0(), post.w1(), layer2)
            && post.stored_list(id2, layer2) == (if id2 == id && layer2 == layer {
            list
        } else {
            pre.stored_list(id2, layer2)
        }) by {
            pre.lemma_count_index(id2, layer2);
            assert(pre.count(id2, layer2) <= run(w0, w1, layer2));
            lemma_slot_within(b, n, w0, w1, id2, layer2);
            if id2 == id && layer2 == layer {
                assert(post.stored_list(id2, layer2) =~= list);
            } else {
                if id2 < id || (id2 == id && layer2 < layer) {
                    lemma_slots_apart(b, n, w0, w1, id2, layer2, id, layer);
                } else {
                    lemma_slots_apart(b, n, w0, w1, id, layer, id2, layer2);
                }
                assert(post.stored_list(id2, layer2) =~= pre.stored_list(id2, layer2));
            }
        }
        assert forall|id2: int| 0 <= id2 < n implies #[trigger] post@.nodes[id2]
            == pre@.with_links(id, layer, list).nodes[id2] by {
            let a = post@.nodes[id2];
            let c = pre@.with_links(id, layer, list).nodes[id2];
            assert forall|layer2: int| 0 <= layer2 < a.layers.len() implies a.layers[layer2]
                == #[trigger] c.layers[layer2] by {
                assert(post.count(id2, layer2) <= run(post.w0(), post.w1(), layer2));
            }
            assert(a.layers =~= c.layers);
        }
        assert(post@.nodes =~= pre@.with_links(id, layer, list).nodes);
    }

    /// Replace node `id`'s neighbor list on `layer`. A list may be one longer
    /// than the degree cap.
    pub(crate) fn set_neighbors(&mut self, id: usize, layer: usize, ids: &[u32])
        requires
            old(self).stored(),
            id < old(self)@.nodes.len(),
            layer < old(self)@.nodes[id as int].layers.len(),
            ids@.len() <= old(self)@.cap(layer as int) + 1,
            ids@.len() <= u32::MAX,
        ensures
            final(self).stored(),
            final(self)@ == old(self)@.with_links(id as int, layer as int, ids@),
    {
        let start: usize = self.layer_slot(id, layer);
        let ghost pre = *self;
        proof {
            self.lemma_count_index(id as int, layer as int);
        }
        let index: usize = self.layer_base[id] as usize + layer;
        let mut i: usize = 0;
        while i < ids.len()
            invariant
                pre.stored(),
                pre.differs_in_links(self),
                self.link_counts == pre.link_counts,
                start == pre.spec_slot(id as int, layer as int),
                start + run(pre.w0(), pre.w1(), layer as int) <= pre.links@.len(),
                ids@.len() <= run(pre.w0(), pre.w1(), layer as int),
                i <= ids@.len(),
                self.links@.len() == pre.links@.len(),
                forall|k: int|
                    0 <= k < pre.links@.len() && !(start <= k < start + i) ==> #[trigger]
                    self.links@[k] == pre.links@[k],
                forall|k: int| 0 <= k < i ==> self.links@[start + k] == #[trigger] ids@[k],
            decreases ids@.len() - i,
        {
            assert(self.links.len() == self.links@.len());
            self.links.set(start + i, ids[i]);
            i += 1;
        }
        self.link_counts.set(index, ids.len() as u32);
        proof {
            Self::lemma_relink(&pre, self, id as int, layer as int, ids@);
        }
    }

    /// Append one neighbor to node `id`'s list on `layer` and return the new
    /// length. The slot run is one wider than the degree cap, so an append onto
    /// a full list still fits.
    pub(crate) fn push_neighbor(&mut self, id: usize, layer: usize, neighbor: u32) -> (len: usize)
        requires
            old(self).stored(),
            id < old(self)@.nodes.len(),
            layer < old(self)@.nodes[id as int].layers.len(),
            old(self)@.nodes[id as int].layers[layer as int].len() <= old(self)@.cap(layer as int),
            old(self)@.nodes[id as int].layers[layer as int].len() < u32::MAX,
        ensures
            final(self).stored(),
            final(self)@ == old(self)@.with_links(
                id as int,
                layer as int,
                old(self)@.nodes[id as int].layers[layer as int].push(neighbor),
            ),
            len == old(self)@.nodes[id as int].layers[layer as int].len() + 1,
    {
        let start: usize = self.layer_slot(id, layer);
        let ghost pre = *self;
        proof {
            self.lemma_count_index(id as int, layer as int);
            assert(self.links.len() == self.links@.len());
            assert(self.count(id as int, layer as int) <= run(
                self.w0(),
                self.w1(),
                layer as int,
            ));
        }
        let index: usize = self.layer_base[id] as usize + layer;
        let count: usize = self.link_counts[index] as usize;
        assert(self@.nodes[id as int].layers[layer as int] == self.stored_list(
            id as int,
            layer as int,
        ));
        self.links.set(start + count, neighbor);
        self.link_counts.set(index, (count + 1) as u32);
        proof {
            let list = pre@.nodes[id as int].layers[layer as int].push(neighbor);
            Self::lemma_relink(&pre, self, id as int, layer as int, list);
        }
        count + 1
    }
}

impl Hnsw {
    /// The last layer offset counts the layers of all nodes before it.
    proof fn lemma_layer_total(&self, upto: int)
        requires
            self.stored(),
            0 <= upto <= self.n,
        ensures
            layers_of(self@.nodes.take(upto)) == self.layer_base@[upto],
        decreases upto,
    {
        if upto > 0 {
            self.lemma_layer_total(upto - 1);
            assert(self@.nodes.take(upto).drop_last() =~= self@.nodes.take(upto - 1));
            assert(self.layer_base@[upto - 1] < self.layer_base@[upto]);
        }
    }

    /// A graph that is stored fits the machine.
    pub proof fn lemma_fits(&self)
        requires
            self.stored(),
        ensures
            fits(
                self@.nodes.len(),
                self@.layer_total(),
                self@.dim,
                self@.cap(0),
                self@.cap(1),
            ),
    {
        self.lemma_layer_total(self.n as int);
        assert(self@.nodes.take(self.n as int) =~= self@.nodes);
        assert(self.vectors.len() == self.vectors@.len());
        assert(self.links.len() == self.links@.len());
    }

    /// Appending one node's storage to every array adds the node to the value.
    proof fn lemma_grow(
        pre: &Hnsw,
        post: &Hnsw,
        vector: Seq<u32>,
        attrs: Vec<AttrValue>,
        levels: int,
    )
        requires
            pre.stored(),
            pre.n < Self::MAX_NODES,
            post.metric == pre.metric,
            post.m == pre.m,
            post.gamma == pre.gamma,
            post.m_cap == pre.m_cap,
            post.m0_cap == pre.m0_cap,
            post.ef_construction == pre.ef_construction,
            post.dim == pre.dim,
            post.seed == pre.seed,
            post.n == pre.n + 1,
            post.entry_point == pre.entry_point,
            post.max_layer == pre.max_layer,
            post.rng == pre.rng,
            vector.len() == pre.dim,
            levels >= 1,
            pre.layer_base@[pre.n as int] + levels <= u32::MAX,
            post.vectors@ == pre.vectors@ + vector,
            post.layer_base@ == pre.layer_base@.push(
                (pre.layer_base@[pre.n as int] + levels) as u32,
            ),
            post.link_counts@.len() == pre.link_counts@.len() + levels,
            forall|k: int|
                0 <= k < pre.link_counts@.len() ==> #[trigger] post.link_counts@[k]
                    == pre.link_counts@[k],
            forall|k: int|
                pre.link_counts@.len() <= k < post.link_counts@.len() ==> #[trigger]
                post.link_counts@[k] == 0,
            post.links@.len() == pre.links@.len() + pre.w0() + (levels - 1) * pre.w1(),
            forall|k: int|
                0 <= k < pre.links@.len() ==> #[trigger] post.links@[k] == pre.links@[k],
            post.attrs@ == pre.attrs@.push(attrs),
            post.deleted@ == pre.deleted@.push(false),
        ensures
            post.stored(),
            post@ == pre@.with_node(vector, attrs@, levels as nat),
    {
        let n = pre.n as int;
        let (b, w0, w1) = (pre.layer_base@, pre.w0(), pre.w1());
        let c = post.layer_base@;
        assert(offsets_ok(c, n + 1)) by {
            assert forall|i: int, j: int| 0 <= i < j <= n + 1 implies #[trigger] c[i]
                < #[trigger] c[j] by {
                if j == n + 1 {
                    assert(c[j] == b[n] + levels);
                    if i < n {
                        assert(b[i] < b[n]);
                    }
                }
            }
        }
        assert((n + 1) * pre.dim == n * pre.dim + pre.dim) by (nonlinear_arith);
        assert((n + 1) * w0 == n * w0 + w0) by (nonlinear_arith);
        assert((b[n] + levels - (n + 1)) * w1 == (b[n] - n) * w1 + (levels - 1) * w1)
            by (nonlinear_arith);
        assert forall|id: int, layer: int|
            0 <= id < n && 0 <= layer < pre.spec_levels(id) implies #[trigger] post.count(id, layer)
            == pre.count(id, layer) && post.stored_list(id, layer) == pre.stored_list(id, layer) by {
            pre.lemma_count_index(id, layer);
            lemma_slot_within(b, n, w0, w1, id, layer);
            assert(pre.count(id, layer) <= run(w0, w1, layer));
            assert(c[id] == b[id]);
            assert(post.stored_list(id, layer) =~= pre.stored_list(id, layer));
        }
        assert forall|layer: int| 0 <= layer < levels implies #[trigger] post.count(n, layer) == 0
            && post.stored_list(n, layer) == Seq::<u32>::empty() by {
            lemma_slot_within(c, n + 1, w0, w1, n, layer);
            assert(post.link_counts@[c[n] + layer] == 0);
            assert(post.stored_list(n, layer) =~= Seq::<u32>::empty());
        }
        assert forall|id: int, layer: int|
            0 <= id < post.n && 0 <= layer < post.spec_levels(id) implies #[trigger] post.count(
            id,
            layer,
        ) <= run(w0, w1, layer) by {
            if id < n {
                assert(pre.count(id, layer) <= run(w0, w1, layer));
            }
        }
        assert(post.stored());
        let want = pre@.with_node(vector, attrs@, levels as nat);
        assert forall|id: int| 0 <= id < post.n implies #[trigger] post@.nodes[id]
            == want.nodes[id] by {
            let x = post@.nodes[id];
            let y = want.nodes[id];
            lemma_stride(id, n + 1, pre.dim as int);
            if id < n {
                lemma_stride(id, n, pre.dim as int);
                assert(y == pre@.nodes[id]);
                assert(c[id] == b[id] && c[id + 1] == b[id + 1]);
            }
            assert(x.vector =~= y.vector);
            assert forall|layer: int| 0 <= layer < x.layers.len() implies x.layers[layer]
                == #[trigger] y.layers[layer] by {
                assert(post.count(id, layer) >= 0);
            }
            assert(x.layers =~= y.layers);
        }
        assert(post@.nodes =~= want.nodes);
    }

    /// Append an unconnected node on `levels` layers and return its id. Node ids
    /// are 32-bit, so a full graph refuses.
    pub(crate) fn push_node(&mut self, vector: &[u32], attrs: Vec<AttrValue>, levels: usize) -> (r:
        Result<usize, HnswError>)
        requires
            old(self).stored(),
            vector@.len() == old(self)@.dim,
            levels >= 1,
            old(self)@.nodes.len() < Self::MAX_NODES ==> fits(
                old(self)@.nodes.len() + 1,
                old(self)@.layer_total() + levels as nat,
                old(self)@.dim,
                old(self)@.cap(0),
                old(self)@.cap(1),
            ),
        ensures
            final(self).stored(),
            old(self)@.nodes.len() >= Self::MAX_NODES ==> r == Err::<usize, HnswError>(
                HnswError::NodeLimitReached { limit: Self::MAX_NODES },
            ) && final(self)@ == old(self)@,
            old(self)@.nodes.len() < Self::MAX_NODES ==> r == Ok::<usize, HnswError>(
                old(self)@.nodes.len() as usize,
            ) && final(self)@ == old(self)@.with_node(vector@, attrs@, levels as nat),
    {
        if self.n >= Self::MAX_NODES {
            return Err(HnswError::NodeLimitReached { limit: Self::MAX_NODES });
        }
        let ghost pre = *self;
        let id: usize = self.n;
        proof {
            self.lemma_layer_total(self.n as int);
            assert(self@.nodes.take(self.n as int) =~= self@.nodes);
            let (total, w0, w1) = (self.layer_base@[self.n as int] as int, self.w0(), self.w1());
            assert((self.n + 1) * w0 == self.n * w0 + w0) by (nonlinear_arith);
            assert((total + levels - (self.n + 1)) * w1 == (total - self.n) * w1 + (levels - 1)
                * w1) by (nonlinear_arith);
            assert((levels - 1) * w1 >= 0) by (nonlinear_arith)
                requires
                    levels >= 1,
                    w1 >= 1,
            ;
            assert(levels > 1 ==> w1 <= (levels - 1) * w1) by (nonlinear_arith)
                requires
                    levels >= 1,
                    w1 >= 1,
            ;
            assert(self.links.len() == self.links@.len());
            assert(self.link_counts.len() == self.link_counts@.len());
            lemma_offsets_grow(self.layer_base@, self.n as int, 0, self.n as int);
        }
        self.vectors.extend_from_slice(vector);
        let ghost row = attrs;
        self.attrs.push(attrs);
        self.deleted.push(false);
        let end: u32 = self.layer_base[id] + levels as u32;
        self.layer_base.push(end);
        let counted: usize = self.link_counts.len() + levels;
        self.link_counts.resize(counted, 0);
        let mut slots: usize = self.m0_cap + 1;
        if levels > 1 {
            slots = slots + (levels - 1) * (self.m_cap + 1);
        }
        let linked: usize = self.links.len() + slots;
        self.links.resize(linked, 0);
        self.n = self.n + 1;
        proof {
            assert(self.vectors@ =~= pre.vectors@ + vector@);
            Self::lemma_grow(&pre, self, vector@, row, levels as int);
        }
        Ok(id)
    }
}

impl Hnsw {
    /// Link slots all nodes reserve.
    pub(crate) fn slot_total(&self) -> (r: usize)
        requires
            self.stored(),
        ensures
            r == self@.nodes.len() * (self@.cap(0) + 1) + (self@.layer_total()
                - self@.nodes.len()) * (self@.cap(1) + 1),
    {
        proof {
            self.lemma_layer_total(self.n as int);
            assert(self@.nodes.take(self.n as int) =~= self@.nodes);
        }
        self.links.len()
    }

    /// Layers all nodes take part in, summed.
    pub(crate) fn layer_total(&self) -> (r: usize)
        requires
            self.stored(),
        ensures
            r == self@.layer_total(),
    {
        proof {
            self.lemma_layer_total(self.n as int);
            assert(self@.nodes.take(self.n as int) =~= self@.nodes);
        }
        self.link_counts.len()
    }

    /// Soft-delete a node: it stays in the graph as a routing-only stepping stone
    /// but is never returned. Deleting a node twice is no error; an unknown id
    /// is.
    pub fn delete(&mut self, id: usize) -> (r: Result<(), HnswError>)
        requires
            old(self).wf(),
        ensures
            final(self).wf(),
            old(self)@.layered() ==> final(self)@.layered(),
            id >= old(self)@.nodes.len() ==> r == Err::<(), HnswError>(
                HnswError::UnknownNode { id },
            ) && final(self)@ == old(self)@,
            id < old(self)@.nodes.len() ==> r == Ok::<(), HnswError>(()) && final(self)@ == old(
                self,
            )@.with_deleted(id as int),
    {
        if id >= self.n {
            return Err(HnswError::UnknownNode { id });
        }
        let ghost before = self@;
        self.mark_deleted(id);
        proof {
            before.lemma_deleted_valid(id as int);
        }
        Ok(())
    }

    /// Set a node's tombstone flag.
    pub(crate) fn mark_deleted(&mut self, id: usize)
        requires
            old(self).stored(),
            id < old(self)@.nodes.len(),
        ensures
            final(self).stored(),
            final(self)@ == old(self)@.with_deleted(id as int),
    {
        let ghost pre = *self;
        self.deleted.set(id, true);
        proof {
            self.lemma_same_links(&pre);
            assert(self@.nodes =~= pre@.with_deleted(id as int).nodes);
        }
    }

    /// Fix the dimensionality of an empty graph.
    pub(crate) fn set_dim(&mut self, dim: usize)
        requires
            old(self).stored(),
            old(self)@.nodes.len() == 0,
        ensures
            final(self).stored(),
            final(self)@ == (Graph { dim: dim as nat, ..old(self)@ }),
    {
        let ghost pre = *self;
        self.dim = dim;
        proof {
            assert(0 * dim == 0) by (nonlinear_arith);
            assert(0 * pre.dim == 0) by (nonlinear_arith);
            assert(self@.nodes =~= pre@.nodes);
        }
    }

    /// Advance the level generator.
    pub(crate) fn set_rng(&mut self, rng: u64)
        requires
            old(self).stored(),
        ensures
            final(self).stored(),
            final(self)@ == (Graph { rng, ..old(self)@ }),
    {
        let ghost pre = *self;
        self.rng = rng;
        proof {
            self.lemma_same_links(&pre);
            assert(self@.nodes =~= pre@.nodes);
        }
    }

    /// Make `entry` the entry point, on top layer `max_layer`.
    pub(crate) fn set_entry(&mut self, entry: Option<usize>, max_layer: usize)
        requires
            old(self).stored(),
        ensures
            final(self).stored(),
            final(self)@ == (Graph {
                entry_point: entry,
                max_layer: max_layer as nat,
                ..old(self)@
            }),
    {
        let ghost pre = *self;
        self.entry_point = entry;
        self.max_layer = max_layer;
        proof {
            self.lemma_same_links(&pre);
            assert(self@.nodes =~= pre@.nodes);
        }
    }

    /// Two graphs over the same arrays have the same neighbor lists.
    proof fn lemma_same_links(&self, pre: &Hnsw)
        requires
            self.w0() == pre.w0(),
            self.w1() == pre.w1(),
            self.n == pre.n,
            self.layer_base@ == pre.layer_base@,
            self.link_counts@ == pre.link_counts@,
            self.links@ == pre.links@,
        ensures
            forall|id: int|
                #![trigger self.stored_node(id)]
                0 <= id < self.n ==> self.stored_node(id).layers == pre.stored_node(id).layers,
            forall|id: int, layer: int| #[trigger]
                self.count(id, layer) == pre.count(id, layer),
    {
        assert forall|id: int| #![trigger self.stored_node(id)] 0 <= id < self.n implies
            self.stored_node(id).layers == pre.stored_node(id).layers by {
            assert(self.stored_node(id).layers =~= pre.stored_node(id).layers);
        }
    }

    /// An empty graph with these parameters, as a decoder starts from.
    pub(crate) fn with_header(
        metric: Metric,
        m: usize,
        gamma: u32,
        ef_construction: usize,
        dim: usize,
        seed: u64,
        rng: u64,
    ) -> (h: Self)
        requires
            m <= usize::MAX / 2,
            gamma_in_range(gamma),
        ensures
            h.stored(),
            h@ == (Graph {
                metric,
                m: m as nat,
                gamma,
                ef_construction: ef_construction as nat,
                dim: dim as nat,
                seed,
                rng,
                entry_point: None,
                max_layer: 0,
                nodes: Seq::empty(),
            }),
    {
        let mut layer_base: Vec<u32> = Vec::new();
        layer_base.push(0);
        let h = Hnsw {
            metric,
            m,
            gamma,
            m_cap: scale_degree(m, gamma),
            m0_cap: scale_degree(m * 2, gamma),
            ef_construction,
            dim,
            seed,
            n: 0,
            vectors: Vec::new(),
            layer_base,
            link_counts: Vec::new(),
            links: Vec::new(),
            attrs: Vec::new(),
            deleted: Vec::new(),
            entry_point: None,
            max_layer: 0,
            rng,
        };
        proof {
            assert(0 * dim == 0) by (nonlinear_arith);
            assert(0 * h.w0() == 0 && 0 * h.w1() == 0);
            assert(offsets_ok(h.layer_base@, 0));
            assert(h@.nodes =~= Seq::<Node>::empty());
        }
        h
    }

    /// Number of tombstoned nodes.
    pub fn deleted_count(&self) -> (r: usize)
        requires
            self.stored(),
        ensures
            r == self@.deleted_count(),
    {
        let mut count: usize = 0;
        let mut i: usize = 0;
        assert(self@.nodes.take(0) =~= Seq::<Node>::empty());
        while i < self.len()
            invariant
                self.stored(),
                i <= self@.nodes.len(),
                count <= i,
                count == deleted_in(self@.nodes.take(i as int)),
            decreases self@.nodes.len() - i,
        {
            proof {
                assert(self@.nodes.take(i + 1).drop_last() =~= self@.nodes.take(i as int));
            }
            if self.is_deleted(i) {
                count += 1;
            }
            i += 1;
        }
        assert(self@.nodes.take(self@.nodes.len() as int) =~= self@.nodes);
        count
    }

    /// Number of live nodes.
    pub fn live_len(&self) -> (r: usize)
        requires
            self.stored(),
        ensures
            r == self@.nodes.len() - self@.deleted_count(),
    {
        proof {
            lemma_deleted_in_bound(self@.nodes);
        }
        self.len() - self.deleted_count()
    }
}

/// Tombstoned nodes among a run of nodes.
pub open spec fn deleted_in(nodes: Seq<Node>) -> nat
    decreases nodes.len(),
{
    if nodes.len() == 0 {
        0
    } else {
        deleted_in(nodes.drop_last()) + (if nodes.last().deleted {
            1nat
        } else {
            0
        })
    }
}

/// There are no more tombstones than nodes.
pub proof fn lemma_deleted_in_bound(nodes: Seq<Node>)
    ensures
        deleted_in(nodes) <= nodes.len(),
    decreases nodes.len(),
{
    if nodes.len() > 0 {
        lemma_deleted_in_bound(nodes.drop_last());
    }
}

impl Graph {
    /// How many nodes are tombstoned.
    pub open spec fn deleted_count(self) -> nat {
        deleted_in(self.nodes)
    }

    /// The same graph with one node tombstoned.
    pub open spec fn with_deleted(self, id: int) -> Graph {
        Graph {
            nodes: self.nodes.update(id, Node { deleted: true, ..self.nodes[id] }),
            ..self
        }
    }

    /// Tombstoning a node keeps the graph's invariants.
    pub proof fn lemma_deleted_valid(self, id: int)
        requires
            0 <= id < self.nodes.len(),
            self.valid(),
        ensures
            self.with_deleted(id).valid(),
            self.layered() ==> self.with_deleted(id).layered(),
    {
        let after = self.with_deleted(id);
        assert forall|k: int| 0 <= k < after.nodes.len() implies #[trigger] after.node_ok(k) by {
            assert(self.node_ok(k));
            assert(after.nodes[k].layers == self.nodes[k].layers);
            assert forall|layer: int| 0 <= layer < after.nodes[k].layers.len() implies
                after.list_ok(layer, #[trigger] after.nodes[k].layers[layer]) by {
                assert(self.list_ok(layer, self.nodes[k].layers[layer]));
            }
        }
        if self.layered() {
            assert forall|k: int, layer: int, i: int|
                0 <= k < after.nodes.len() && 0 <= layer < after.nodes[k].layers.len() && 0 <= i
                    < after.nodes[k].layers[layer].len() implies after.on_layer(
                #[trigger] after.nodes[k].layers[layer][i] as int,
                layer,
            ) by {
                assert(after.nodes[k].layers == self.nodes[k].layers);
                assert(self.on_layer(self.nodes[k].layers[layer][i] as int, layer));
            }
        }
    }
}

impl Graph {
    /// The two graphs differ at most in which nodes their links name.
    pub open spec fn same_frame(self, other: Graph) -> bool {
        &&& self.metric == other.metric
        &&& self.m == other.m
        &&& self.gamma == other.gamma
        &&& self.ef_construction == other.ef_construction
        &&& self.dim == other.dim
        &&& self.seed == other.seed
        &&& self.rng == other.rng
        &&& self.entry_point == other.entry_point
        &&& self.max_layer == other.max_layer
        &&& self.nodes.len() == other.nodes.len()
        &&& forall|id: int|
            0 <= id < self.nodes.len() ==> {
                &&& (#[trigger] self.nodes[id]).vector == other.nodes[id].vector
                &&& self.nodes[id].attrs == other.nodes[id].attrs
                &&& self.nodes[id].deleted == other.nodes[id].deleted
                &&& self.nodes[id].layers.len() == other.nodes[id].layers.len()
            }
    }

    /// A list that names nodes of its own layer, within the degree cap, may
    /// replace any other.
    pub proof fn lemma_with_links(self, id: int, layer: int, list: Seq<u32>)
        requires
            0 <= id < self.nodes.len(),
            0 <= layer < self.nodes[id].layers.len(),
        ensures
            self.with_links(id, layer, list).same_frame(self),
            self.valid() && self.list_ok(layer, list) ==> self.with_links(id, layer, list).valid(),
            self.layered() && (forall|i: int|
                0 <= i < list.len() ==> self.on_layer(#[trigger] list[i] as int, layer))
                ==> self.with_links(id, layer, list).layered(),
    {
        let after = self.with_links(id, layer, list);
        assert(after.same_frame(self));
        if self.valid() && self.list_ok(layer, list) {
            assert forall|k: int| 0 <= k < after.nodes.len() implies #[trigger] after.node_ok(k) by {
                assert(self.node_ok(k));
                assert forall|l: int| 0 <= l < after.nodes[k].layers.len() implies after.list_ok(
                    l,
                    #[trigger] after.nodes[k].layers[l],
                ) by {
                    if !(k == id && l == layer) {
                        assert(after.nodes[k].layers[l] == self.nodes[k].layers[l]);
                        assert(self.list_ok(l, self.nodes[k].layers[l]));
                    }
                }
            }
        }
        if self.layered() && (forall|i: int|
            0 <= i < list.len() ==> self.on_layer(#[trigger] list[i] as int, layer)) {
            assert forall|k: int, l: int, i: int|
                0 <= k < after.nodes.len() && 0 <= l < after.nodes[k].layers.len() && 0 <= i
                    < after.nodes[k].layers[l].len() implies after.on_layer(
                #[trigger] after.nodes[k].layers[l][i] as int,
                l,
            ) by {
                if k == id && l == layer {
                    assert(self.on_layer(list[i] as int, layer));
                } else {
                    assert(after.nodes[k].layers[l] == self.nodes[k].layers[l]);
                    assert(self.on_layer(self.nodes[k].layers[l][i] as int, l));
                }
            }
        }
    }
}

impl Hnsw {
    /// Every stored vector has the graph's dimensionality.
    pub proof fn lemma_vector_len(&self, id: int)
        requires
            self.stored(),
            0 <= id < self@.nodes.len(),
        ensures
            self@.nodes[id].vector.len() == self@.dim,
            self@.nodes[id].layers.len() <= u32::MAX,
    {
        lemma_stride(id, self.n as int, self.dim as int);
    }

    /// Every stored attribute row has a length.
    pub proof fn lemma_row_len(&self, id: int)
        requires
            self.stored(),
            0 <= id < self@.nodes.len(),
        ensures
            self@.nodes[id].attrs.len() <= usize::MAX,
    {
        assert(self.attrs@[id].len() == self.attrs@[id]@.len());
    }

    /// A stored graph has no more nodes than ids.
    pub proof fn lemma_node_count(&self)
        requires
            self.stored(),
        ensures
            self@.nodes.len() <= Self::MAX_NODES,
            self@.m <= usize::MAX,
            self@.dim <= usize::MAX,
            self@.cap(0) <= usize::MAX,
            self@.cap(1) <= usize::MAX,
    {
    }
}

/// Deleting the same node again changes nothing.
pub proof fn delete_is_idempotent(g: Graph, id: int)
    requires
        0 <= id < g.nodes.len(),
    ensures
        g.with_deleted(id).with_deleted(id) == g.with_deleted(id),
{
    assert(g.with_deleted(id).with_deleted(id).nodes =~= g.with_deleted(id).nodes);
}

/// The stride of node `id` lies within the vector array.
proof fn lemma_stride(id: int, n: int, dim: int)
    requires
        0 <= id < n,
        0 <= dim,
    ensures
        0 <= id * dim,
        id * dim + dim <= n * dim,
{
    assert(0 <= id * dim && id * dim + dim <= n * dim) by (nonlinear_arith)
        requires
            0 <= id < n,
            0 <= dim,
    ;
}

} // verus!
