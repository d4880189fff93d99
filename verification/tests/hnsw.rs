use std::collections::HashSet;
use std::ops::Deref;

use brindle::distance::Kernel;
use brindle::filter::{Atom, AttrValue, Bound, Predicate};
use brindle::hnsw::format::{ATTR_TAG_INT, CODEC_MAGIC, CODEC_VERSION};
use brindle::hnsw::insert::xorshift64;
use brindle::hnsw::source::{GraphBytes, HnswDecodeError};
use brindle::hnsw::{Hnsw, HnswError, HnswParams};
use brindle::index_am::storage::PageBytes;
use brindle::vector::Metric;

/// The distance kernels, on `f32` bits.
fn kernel(which: Kernel, a: &[u32], b: &[u32]) -> u32 {
    let pairs = || {
        a.iter()
            .zip(b)
            .map(|(x, y)| (f32::from_bits(*x), f32::from_bits(*y)))
    };
    let r = match which {
        Kernel::L2Squared => {
            let mut acc = 0.0f32;
            for (x, y) in pairs() {
                let d = x - y;
                acc += d * d;
            }
            acc
        }
        Kernel::Dot => pairs().map(|(x, y)| x * y).sum(),
        Kernel::Norms | Kernel::Cosine => {
            let (mut dot, mut norm_a, mut norm_b) = (0.0f32, 0.0f32, 0.0f32);
            for (x, y) in pairs() {
                dot += x * y;
                norm_a += x * x;
                norm_b += y * y;
            }
            let norms = norm_a.sqrt() * norm_b.sqrt();
            if which == Kernel::Norms {
                norms
            } else {
                1.0 - dot / norms
            }
        }
    };
    r.to_bits()
}

/// The top layer that 53 uniform bits stand for.
fn level(draw: u64, m: usize) -> usize {
    let mut r = draw as f64 / (1u64 << 53) as f64;
    if r <= 0.0 {
        r = f64::MIN_POSITIVE;
    }
    (-r.ln() * (1.0 / (m as f64).ln())).floor() as usize
}

fn next_f64(state: &mut u64) -> f64 {
    (xorshift64(state) >> 11) as f64 / ((1u64 << 53) as f64)
}

fn bits(v: &[f32]) -> Vec<u32> {
    v.iter().map(|x| x.to_bits()).collect()
}

fn floats(found: Vec<(u32, usize)>) -> Vec<(f32, usize)> {
    found
        .into_iter()
        .map(|(d, id)| (f32::from_bits(d), id))
        .collect()
}

fn float(x: f64) -> AttrValue {
    AttrValue::Float(x.to_bits())
}

/// Build parameters with the density as a number.
struct Params {
    m: usize,
    ef_construction: usize,
    gamma: f32,
    metric: Metric,
    seed: u64,
}

impl Default for Params {
    fn default() -> Self {
        let p = HnswParams::default();
        Params {
            m: p.m,
            ef_construction: p.ef_construction,
            gamma: f32::from_bits(p.gamma),
            metric: p.metric,
            seed: p.seed,
        }
    }
}

/// A graph over `f32` vectors.
struct Index(Hnsw);

impl Deref for Index {
    type Target = Hnsw;

    fn deref(&self) -> &Hnsw {
        &self.0
    }
}

impl std::fmt::Debug for Index {
    fn fmt(&self, f: &mut std::fmt::Formatter<'_>) -> std::fmt::Result {
        f.write_str("Index")
    }
}

impl Index {
    fn new(p: Params) -> Index {
        Index(Hnsw::new(HnswParams {
            m: p.m,
            ef_construction: p.ef_construction,
            gamma: p.gamma.to_bits(),
            metric: p.metric,
            seed: p.seed,
        }))
    }

    fn insert(&mut self, v: Vec<f32>) -> Result<usize, HnswError> {
        assert!(self.0.can_insert(&level, &bits(&v)));
        self.0.insert(&kernel, &level, bits(&v))
    }

    fn insert_with_attrs(
        &mut self,
        v: Vec<f32>,
        attrs: Vec<AttrValue>,
    ) -> Result<usize, HnswError> {
        assert!(self.0.can_insert(&level, &bits(&v)));
        self.0.insert_with_attrs(&kernel, &level, bits(&v), attrs)
    }

    fn search(&self, q: &[f32], k: usize, ef: usize) -> Result<Vec<(f32, usize)>, HnswError> {
        self.0.search(&kernel, &bits(q), k, ef).map(floats)
    }

    fn search_filtered(
        &self,
        q: &[f32],
        k: usize,
        ef: usize,
        pred: &Predicate,
    ) -> Result<Vec<(f32, usize)>, HnswError> {
        self.0
            .search_filtered(&kernel, &bits(q), k, ef, pred)
            .map(floats)
    }

    fn brute_force(&self, q: &[f32], k: usize) -> Result<Vec<(f32, usize)>, HnswError> {
        self.0.brute_force(&kernel, &bits(q), k).map(floats)
    }

    fn delete(&mut self, id: usize) -> Result<(), HnswError> {
        self.0.delete(id)
    }

    fn compact(&mut self) -> Result<usize, HnswError> {
        self.0.compact(&kernel, &level)
    }

    fn from_bytes(bytes: &[u8]) -> Result<Index, HnswDecodeError> {
        Hnsw::from_bytes(bytes).map(Index)
    }

    fn from_graph_bytes<S: GraphBytes>(src: &mut S) -> Result<Index, HnswDecodeError> {
        Hnsw::from_graph_bytes(src).map(Index)
    }
}

fn vectors(h: &Index) -> Vec<Vec<u32>> {
    (0..h.len()).map(|id| h.vector(id).to_vec()).collect()
}

fn tombstones(h: &Index) -> Vec<bool> {
    (0..h.len()).map(|id| h.is_deleted(id)).collect()
}

fn build(n: usize, dim: usize, seed: u64) -> (Index, Vec<Vec<f32>>) {
    build_gamma(n, dim, seed, 1.0)
}

fn build_gamma(n: usize, dim: usize, seed: u64, gamma: f32) -> (Index, Vec<Vec<f32>>) {
    let mut data_rng = seed ^ 0xABCD_EF01;
    let mut h = Index::new(Params {
        m: 8,
        ef_construction: 50,
        gamma,
        metric: Metric::L2,
        seed,
    });
    let mut data = Vec::with_capacity(n);
    for _ in 0..n {
        let v: Vec<f32> = (0..dim).map(|_| next_f64(&mut data_rng) as f32).collect();
        h.insert(v.clone()).expect("insert");
        data.push(v);
    }
    (h, data)
}

fn graph_fingerprint(h: &Index) -> u64 {
    const FNV_OFFSET: u64 = 0xcbf2_9ce4_8422_2325;
    const FNV_PRIME: u64 = 0x0000_0100_0000_01b3;
    let mut hash = FNV_OFFSET;
    let mut mix = |x: u64| {
        for b in x.to_le_bytes() {
            hash ^= b as u64;
            hash = hash.wrapping_mul(FNV_PRIME);
        }
    };
    for id in 0..h.len() {
        let levels = h.levels(id);
        mix(levels as u64);
        for lc in 0..levels {
            let nbrs = h.neighbors(id, lc);
            mix(nbrs.len() as u64);
            for &n in nbrs {
                mix(n as u64);
            }
        }
    }
    mix(h.entry_point().map(|e| e as u64 + 1).unwrap_or(0));
    mix(h.max_layer() as u64);
    hash
}

const REFERENCE_FINGERPRINT: u64 = 0xD0A7_2FC5_93B4_C94B;

#[test]
fn gamma_one_reproduces_pre_gamma_graph() {
    let (h, _) = build(200, 16, 42);
    assert_eq!(
        graph_fingerprint(&h),
        REFERENCE_FINGERPRINT,
        "graph structure drifted from the pre-gamma build"
    );
}

#[test]
fn invalid_gamma_treated_as_one() {
    for gamma in [0.5, 0.0, -3.0, f32::NAN, f32::INFINITY] {
        let (h, _) = build_gamma(200, 16, 42, gamma);
        assert_eq!(
            graph_fingerprint(&h),
            REFERENCE_FINGERPRINT,
            "gamma = {gamma} did not clamp to 1"
        );
    }
}

#[test]
fn len_and_dim() {
    let (h, _) = build(100, 8, 1);
    assert_eq!(h.len(), 100);
    assert_eq!(h.dim(), 8);
    assert!(!h.is_empty());
}

fn adjacency(h: &Index) -> Vec<Vec<Vec<u32>>> {
    (0..h.len())
        .map(|id| {
            (0..h.levels(id))
                .map(|lc| h.neighbors(id, lc).to_vec())
                .collect()
        })
        .collect()
}

#[test]
fn decodes_identically_from_a_fragmented_source() {
    let (h, _) = build(200, 12, 9);
    let bytes = h.to_bytes();
    let whole = Index::from_bytes(&bytes).expect("decode");

    for chunk in [1usize, 3, 7, 53] {
        let fetch = |blkno: u32| -> Vec<u8> {
            let from = (blkno as usize - 1) * chunk;
            bytes[from..(from + chunk).min(bytes.len())].to_vec()
        };
        let nblocks = 1 + bytes.len().div_ceil(chunk) as u32;
        let mut src = PageBytes::new(&fetch, nblocks, bytes.len());
        let piecewise = Index::from_graph_bytes(&mut src).expect("decode");
        assert_eq!(
            adjacency(&piecewise),
            adjacency(&whole),
            "chunk size {chunk} changed the graph"
        );
        assert_eq!(vectors(&piecewise), vectors(&whole), "chunk size {chunk}");
        assert_eq!(piecewise.entry_point(), whole.entry_point());
        assert_eq!(src.remaining(), 0, "chunk size {chunk} left bytes unread");
    }
}

fn header(m: u64, gamma: f32, max_layer: u64, n: u64) -> Vec<u8> {
    header_ef(m, gamma, max_layer, n, 64)
}

fn header_ef(m: u64, gamma: f32, max_layer: u64, n: u64, ef: u64) -> Vec<u8> {
    header_dim(m, gamma, max_layer, n, ef, 2)
}

fn header_dim(m: u64, gamma: f32, max_layer: u64, n: u64, ef: u64, dim: u64) -> Vec<u8> {
    let mut b = Vec::new();
    b.extend_from_slice(&CODEC_MAGIC.to_le_bytes());
    b.extend_from_slice(&CODEC_VERSION.to_le_bytes());
    b.push(Metric::L2.code());
    b.push(0);
    b.extend_from_slice(&m.to_le_bytes());
    b.extend_from_slice(&gamma.to_bits().to_le_bytes());
    b.extend_from_slice(&ef.to_le_bytes());
    b.extend_from_slice(&dim.to_le_bytes());
    b.extend_from_slice(&max_layer.to_le_bytes());
    b.extend_from_slice(&1u64.to_le_bytes());
    b.extend_from_slice(&1u64.to_le_bytes());
    b.extend_from_slice(&0u64.to_le_bytes());
    b.extend_from_slice(&n.to_le_bytes());
    b
}

#[test]
fn decodes_graphs_built_at_the_densest_legal_settings() {
    for &(m, gamma) in &[(2usize, 512.0f32), (16, 4.0), (128, 8.0), (16, 1.0)] {
        for &n in &[1usize, 2, 64, 130, 154, 200, 300] {
            for &dim in &[1usize, 8] {
                for &seed in &[1u64, 27, 0x9E37_79B9_7F4A_7C15] {
                    let mut h = Index::new(Params {
                        m,
                        ef_construction: 4,
                        gamma,
                        metric: Metric::L2,
                        seed,
                    });
                    let mut state = seed | 1;
                    for _ in 0..n {
                        let v: Vec<f32> = (0..dim)
                            .map(|_| {
                                state ^= state << 13;
                                state ^= state >> 7;
                                state ^= state << 17;
                                (state >> 11) as f32 / (1u64 << 53) as f32
                            })
                            .collect();
                        h.insert(v).expect("insert");
                    }
                    let bytes = h.to_bytes();
                    Index::from_bytes(&bytes).unwrap_or_else(|e| {
                        panic!(
                            "a graph this build produced will not decode: \
                             m={m} gamma={gamma} n={n} dim={dim} seed={seed:#x} \
                             blob={} bytes: {e:?}",
                            bytes.len()
                        )
                    });
                }
            }
        }
    }
}

#[test]
fn rejects_a_payload_that_reserves_far_more_than_it_describes() {
    let m0_cap = 2048usize;
    let m_cap = 1024usize;
    let max_layer = HnswParams::MAX_LAYER;
    let levels = max_layer + 1;
    let nodes = 2000usize;

    let mut blob = header_ef(2, 512.0, max_layer as u64, nodes as u64, m0_cap as u64);
    for _ in 0..nodes {
        blob.push(0);
        blob.extend_from_slice(&(levels as u64).to_le_bytes());
        blob.extend_from_slice(&1.0f32.to_le_bytes());
        blob.extend_from_slice(&2.0f32.to_le_bytes());
        for _ in 0..levels {
            blob.extend_from_slice(&0u64.to_le_bytes());
        }
        blob.extend_from_slice(&0u64.to_le_bytes());
    }

    let reserved_slots = nodes * (m0_cap + 1 + max_layer * (m_cap + 1));
    assert!(
        reserved_slots * 4 > blob.len() * 100,
        "fixture is not amplifying: {} bytes would reserve {} slots",
        blob.len(),
        reserved_slots
    );

    let err = Index::from_bytes(&blob)
        .expect_err("a payload reserving 100x what it describes must be refused");
    assert!(
        matches!(
            err,
            HnswDecodeError::Invalid("link storage exceeds what the payload could describe")
        ),
        "must be refused by the slot ceiling specifically, got {err:?}"
    );
}

#[test]
fn rejects_headers_that_would_size_a_huge_allocation() {
    for (label, blob) in [
        ("m beyond the ceiling", header(1 << 40, 1024.0, 0, 1)),
        (
            "m times gamma beyond the degree cap",
            header(128, 1024.0, 0, 1),
        ),
        ("top layer beyond the ceiling", header(16, 1.0, 1 << 40, 1)),
        (
            "dimension beyond the ceiling",
            header_dim(16, 1.0, 0, 1, 64, 1 << 30),
        ),
    ] {
        let err = Index::from_bytes(&blob)
            .expect_err(&format!("{label}: should be rejected, not decoded"));
        assert!(
            matches!(err, HnswDecodeError::Invalid(_)),
            "{label}: expected a validation error, got {err:?}"
        );
    }
}

fn assert_degree_caps(h: &Index) {
    for id in 0..h.len() {
        for lc in 0..h.levels(id) {
            let nbrs = h.neighbors(id, lc);
            assert!(
                nbrs.len() <= h.max_degree(lc),
                "node {id} layer {lc}: {} neighbors > cap {}",
                nbrs.len(),
                h.max_degree(lc)
            );
        }
    }
}

#[test]
fn degree_cap_respected() {
    let (h, _) = build(300, 12, 7);
    assert_degree_caps(&h);
}

#[test]
fn deterministic_for_seed() {
    for gamma in [1.0, 2.0] {
        let (h1, _) = build_gamma(150, 10, 42, gamma);
        let (h2, _) = build_gamma(150, 10, 42, gamma);
        assert_eq!(adjacency(&h1), adjacency(&h2), "gamma = {gamma}");
        assert_eq!(h1.entry_point(), h2.entry_point());
        assert_eq!(h1.max_layer(), h2.max_layer());
    }
}

#[test]
fn degree_scales_with_gamma() {
    let avg_layer0_degree = |h: &Index| {
        let total: usize = (0..h.len()).map(|id| h.neighbors(id, 0).len()).sum();
        total as f64 / h.len() as f64
    };
    let (h1, _) = build_gamma(400, 12, 21, 1.0);
    let (h2, _) = build_gamma(400, 12, 21, 2.0);

    let (d1, d2) = (avg_layer0_degree(&h1), avg_layer0_degree(&h2));
    assert!(
        d2 >= 1.5 * d1,
        "gamma=2 avg layer-0 degree {d2:.2} not >= 1.5x gamma=1's {d1:.2}"
    );

    assert_degree_caps(&h2);
}

#[test]
fn empty_index_state() {
    let h = Index::new(Params::default());
    assert!(h.is_empty());
    assert_eq!(h.len(), 0);
}

#[test]
fn hnsw_dimension_mismatch_errors() {
    let mut h = Index::new(Params::default());
    h.insert(vec![1.0, 2.0, 3.0]).unwrap();
    assert_eq!(
        h.insert(vec![1.0, 2.0]).unwrap_err(),
        HnswError::DimensionMismatch {
            expected: 3,
            got: 2
        }
    );
}

#[test]
fn empty_vector_errors() {
    let mut h = Index::new(Params::default());
    assert_eq!(h.insert(vec![]).unwrap_err(), HnswError::EmptyVector);
}

#[test]
fn search_on_empty_index_is_empty() {
    let h = Index::new(Params::default());
    assert!(h.search(&[1.0, 2.0], 5, 10).unwrap().is_empty());
}

#[test]
fn search_returns_self_at_rank_zero() {
    let (h, data) = build(200, 16, 3);
    for &probe in &[0usize, 50, 199] {
        let res = h.search(&data[probe], 5, 50).unwrap();
        assert_eq!(
            res[0].1, probe,
            "expected node {probe} at rank 0, got {res:?}"
        );
        assert!(res[0].0 < 1e-6, "self distance not ~0: {}", res[0].0);
    }
}

fn recall_at_10(gamma: f32) -> f64 {
    let (dim, n, k, queries) = (24usize, 800usize, 10usize, 40usize);
    let mut rng = 0x1234_5678u64;
    let mut h = Index::new(Params {
        m: 16,
        ef_construction: 100,
        gamma,
        metric: Metric::L2,
        seed: 99,
    });
    for _ in 0..n {
        let v: Vec<f32> = (0..dim).map(|_| next_f64(&mut rng) as f32).collect();
        h.insert(v).unwrap();
    }

    let mut hits = 0usize;
    for _ in 0..queries {
        let q: Vec<f32> = (0..dim).map(|_| next_f64(&mut rng) as f32).collect();
        let approx = h.search(&q, k, 64).unwrap();
        let exact: HashSet<usize> = h.brute_force(&q, k).unwrap().iter().map(|x| x.1).collect();
        hits += approx.iter().filter(|(_, id)| exact.contains(id)).count();
    }
    hits as f64 / (queries * k) as f64
}

#[test]
fn recall_at_10_beats_threshold() {
    let recall = recall_at_10(1.0);
    assert!(recall >= 0.9, "recall@10 too low: {recall:.3}");
}

#[test]
fn gamma_dense_recall_not_below_baseline() {
    let recall = recall_at_10(2.0);
    assert!(recall >= 0.9, "recall@10 at gamma=2 too low: {recall:.3}");
}

#[test]
fn huge_gamma_clamps_to_bound() {
    let mut h = Index::new(Params {
        m: 2,
        ef_construction: 4,
        gamma: f32::MAX,
        metric: Metric::L2,
        seed: 1,
    });
    assert_eq!(h.max_degree(0), (4.0 * f32::from_bits(HnswParams::MAX_GAMMA)) as usize);
    for i in 0..5 {
        h.insert(vec![i as f32, 0.0]).expect("insert");
    }
}

#[test]
fn delete_excludes_from_results() {
    let (mut h, data) = build(200, 16, 5);
    let target = 42usize;
    h.delete(target).unwrap();
    let res = h.search(&data[target], 5, 50).unwrap();
    assert!(
        res.iter().all(|(_, id)| *id != target),
        "deleted node was returned: {res:?}"
    );
}

#[test]
fn delete_unknown_id_errors() {
    let (mut h, _) = build(10, 4, 1);
    assert_eq!(
        h.delete(999).unwrap_err(),
        HnswError::UnknownNode { id: 999 }
    );
}

#[test]
fn delete_all_but_one() {
    let (mut h, data) = build(60, 8, 2);
    for id in 0..h.len() {
        if id != 7 {
            h.delete(id).unwrap();
        }
    }
    let res = h.search(&data[7], 3, 64).unwrap();
    assert_eq!(res.len(), 1);
    assert_eq!(res[0].1, 7);
}

#[test]
fn recall_holds_under_tombstones() {
    let (dim, n, k, queries) = (24usize, 800usize, 10usize, 30usize);
    let mut rng = 0xBEEF_0001u64;
    let mut h = Index::new(Params {
        m: 16,
        ef_construction: 100,
        gamma: 1.0,
        metric: Metric::L2,
        seed: 11,
    });
    for _ in 0..n {
        let v: Vec<f32> = (0..dim).map(|_| next_f64(&mut rng) as f32).collect();
        h.insert(v).unwrap();
    }
    let mut del_rng = 0x0BAD_F00Du64;
    for id in 0..h.len() {
        if next_f64(&mut del_rng) < 0.2 {
            h.delete(id).unwrap();
        }
    }
    assert!(h.deleted_count() > 0);

    let mut hits = 0usize;
    for _ in 0..queries {
        let q: Vec<f32> = (0..dim).map(|_| next_f64(&mut rng) as f32).collect();
        let approx = h.search(&q, k, 96).unwrap();
        assert!(
            approx.iter().all(|(_, id)| !h.is_deleted(*id)),
            "search returned a tombstoned node"
        );
        let exact: HashSet<usize> = h.brute_force(&q, k).unwrap().iter().map(|x| x.1).collect();
        hits += approx.iter().filter(|(_, id)| exact.contains(id)).count();
    }
    let recall = hits as f64 / (queries * k) as f64;
    assert!(
        recall >= 0.85,
        "recall under ~20% tombstones too low: {recall:.3}"
    );
}

#[test]
fn compact_removes_tombstones_preserving_recall() {
    let (dim, n) = (20usize, 500usize);
    let mut rng = 0x1111_2222u64;
    let mut h = Index::new(Params {
        m: 16,
        ef_construction: 100,
        gamma: 1.0,
        metric: Metric::L2,
        seed: 3,
    });
    let mut data = Vec::new();
    for _ in 0..n {
        let v: Vec<f32> = (0..dim).map(|_| next_f64(&mut rng) as f32).collect();
        h.insert(v.clone()).unwrap();
        data.push(v);
    }
    for id in (0..h.len()).step_by(3) {
        h.delete(id).unwrap();
    }
    let live_before = h.live_len();
    assert!(h.deleted_count() > 0);

    let new_n = h.compact().unwrap();
    assert_eq!(new_n, live_before);
    assert_eq!(h.deleted_count(), 0);
    assert_eq!(h.len(), live_before);

    let res = h.search(&data[1], 3, 64).unwrap();
    assert!(
        res[0].0 < 1e-6,
        "survivor self-distance not ~0: {}",
        res[0].0
    );
}

#[test]
fn attributes_stored_and_survive_build() {
    let mut h = Index::new(Params::default());
    let a = h
        .insert_with_attrs(
            vec![1.0, 2.0],
            vec![AttrValue::Int(42), float(9.5)],
        )
        .unwrap();
    let b = h
        .insert_with_attrs(vec![3.0, 4.0], vec![AttrValue::Null])
        .unwrap();
    let c = h.insert(vec![5.0, 6.0]).unwrap();

    assert_eq!(h.attrs(a), &[AttrValue::Int(42), float(9.5)]);
    assert_eq!(h.attrs(b), &[AttrValue::Null]);
    assert!(h.attrs(c).is_empty());
    assert!(h.attrs(999).is_empty());
}

#[test]
fn attributes_follow_nodes_through_compaction() {
    let mut h = Index::new(Params::default());
    let survivors = 0..40usize;
    for i in survivors.clone() {
        h.insert_with_attrs(vec![i as f32, 0.0], vec![AttrValue::Int(i as i64)])
            .unwrap();
    }
    for id in (0..h.len()).step_by(2) {
        h.delete(id).unwrap();
    }
    h.compact().unwrap();

    for i in survivors.filter(|i| i % 2 == 1) {
        let res = h.search(&[i as f32, 0.0], 1, 32).unwrap();
        assert_eq!(res.len(), 1);
        let new_id = res[0].1;
        assert_eq!(
            h.attrs(new_id),
            &[AttrValue::Int(i as i64)],
            "vector {i} lost or mismatched its attribute after compaction"
        );
    }
}

#[test]
fn bytes_round_trip_preserves_graph() {
    let (mut h, _) = build(250, 12, 21);
    h.delete(17).unwrap();
    h.delete(42).unwrap();
    let restored = Index::from_bytes(&h.to_bytes()).expect("decode");
    assert_eq!(
        adjacency(&restored),
        adjacency(&h),
        "neighbor lists must round-trip"
    );
    assert_eq!(restored.entry_point(), h.entry_point());
    assert_eq!(vectors(&restored), vectors(&h));
    assert_eq!(tombstones(&restored), tombstones(&h));
    assert_eq!(restored.max_layer(), h.max_layer());
    assert_eq!(restored.dim(), h.dim());
    assert_eq!(restored.metric(), h.metric());
    assert_eq!(
        (
            restored.m(),
            restored.max_degree(1),
            restored.max_degree(0),
            restored.ef_construction()
        ),
        (h.m(), h.max_degree(1), h.max_degree(0), h.ef_construction())
    );
    assert_eq!(restored.gamma(), h.gamma());
    assert_eq!((restored.seed(), restored.rng()), (h.seed(), h.rng()));
}

#[test]
fn bytes_round_trip_preserves_gamma() {
    let (h, _) = build_gamma(200, 12, 7, 4.0);
    let restored = Index::from_bytes(&h.to_bytes()).expect("decode");
    assert_eq!(f32::from_bits(restored.gamma()), 4.0);
    assert_eq!(
        (restored.max_degree(1), restored.max_degree(0)),
        (h.max_degree(1), h.max_degree(0)),
        "degree caps must survive the round-trip"
    );
    assert_eq!(adjacency(&restored), adjacency(&h));
}

#[test]
fn serialized_len_hint_bounds_the_real_encoding() {
    for &(n, dim, gamma) in &[(1usize, 4usize, 1.0f32), (200, 16, 1.0), (200, 12, 4.0)] {
        let (h, _) = build_gamma(n, dim, 7, gamma);
        assert!(
            h.to_bytes().len() <= h.serialized_len_hint(),
            "hint {} under-estimated {} bytes (n={n}, dim={dim}, gamma={gamma})",
            h.serialized_len_hint(),
            h.to_bytes().len()
        );
    }
    let empty = Index::new(Params::default());
    assert!(empty.to_bytes().len() <= empty.serialized_len_hint());

    let mut attrs = Index::new(Params::default());
    attrs
        .insert_with_attrs(
            vec![1.0, 2.0],
            vec![AttrValue::Int(1), AttrValue::Null, float(2.0)],
        )
        .expect("insert");
    assert!(attrs.to_bytes().len() <= attrs.serialized_len_hint());
}

#[test]
fn bytes_round_trip_preserves_attributes() {
    let mut h = Index::new(Params::default());
    let rows = [
        vec![AttrValue::Int(42), float(9.5)],
        vec![AttrValue::Null],
        Vec::new(),
        vec![
            AttrValue::Int(i64::MIN),
            AttrValue::Int(i64::MAX),
            float(f64::NAN),
            float(f64::NEG_INFINITY),
        ],
    ];

    for (i, row) in rows.iter().enumerate() {
        h.insert_with_attrs(vec![i as f32, 1.0], row.clone())
            .expect("insert");
    }

    let restored = Index::from_bytes(&h.to_bytes()).expect("decode");
    for id in 0..rows.len() {
        let (before, after) = (h.attrs(id), restored.attrs(id));
        assert_eq!(before.len(), after.len(), "row {id} changed length");
        for (b, a) in before.iter().zip(after) {
            match (b, a) {
                (AttrValue::Float(x), AttrValue::Float(y)) => {
                    assert_eq!(x, y, "row {id} float changed")
                }
                _ => assert_eq!(b, a, "row {id} value changed"),
            }
        }
    }
}

#[test]
fn round_tripped_index_answers_filtered_search() {
    let (h, mut rng) = build_labeled(400, 16, 1.0);
    let restored = Index::from_bytes(&h.to_bytes()).expect("decode");
    let pred = selectivity(10);
    for _ in 0..10 {
        let q: Vec<f32> = (0..16).map(|_| next_f64(&mut rng) as f32).collect();
        let after = restored
            .search_filtered(&q, 10, 64, &pred)
            .expect("filtered search");
        assert!(!after.is_empty(), "round-tripped index matched nothing");
        assert_eq!(
            after,
            h.search_filtered(&q, 10, 64, &pred)
                .expect("filtered search"),
            "filtered results changed across a round-trip"
        );
    }
}

#[test]
fn decode_rejects_bad_attribute_tag() {
    let mut h = Index::new(Params::default());
    h.insert_with_attrs(vec![1.0, 2.0], vec![AttrValue::Int(7)])
        .expect("insert");
    let mut bytes = h.to_bytes();
    let tag = bytes.len() - 9;
    assert_eq!(bytes[tag], ATTR_TAG_INT);
    bytes[tag] = 0xEE;
    assert!(matches!(
        Index::from_bytes(&bytes),
        Err(HnswDecodeError::Invalid("bad attribute tag"))
    ));
}

#[test]
fn bytes_round_trip_empty_index() {
    let h = Index::new(Params::default());
    let restored = Index::from_bytes(&h.to_bytes()).expect("decode");
    assert!(restored.is_empty());
    assert_eq!(restored.dim(), 0);
    assert_eq!(restored.entry_point(), None);
    assert!(restored.search(&[1.0, 2.0], 5, 10).unwrap().is_empty());
}

#[test]
fn restored_index_inserts_identically() {
    let (mut original, _) = build(80, 8, 33);
    let mut restored = Index::from_bytes(&original.to_bytes()).unwrap();
    let mut rng = 0xFEED_u64;
    for _ in 0..40 {
        let v: Vec<f32> = (0..8).map(|_| next_f64(&mut rng) as f32).collect();
        original.insert(v.clone()).unwrap();
        restored.insert(v).unwrap();
    }
    assert_eq!(adjacency(&original), adjacency(&restored));
    assert_eq!(original.entry_point(), restored.entry_point());
}

#[test]
fn decode_rejects_bad_magic() {
    let (h, _) = build(10, 4, 1);
    let mut bytes = h.to_bytes();
    bytes[0] ^= 0xFF;
    assert_eq!(
        Index::from_bytes(&bytes).unwrap_err(),
        HnswDecodeError::BadMagic
    );
}

#[test]
fn decode_rejects_newer_version() {
    let (h, _) = build(10, 4, 1);
    let mut bytes = h.to_bytes();
    bytes[4] = 0xFF;
    assert!(matches!(
        Index::from_bytes(&bytes),
        Err(HnswDecodeError::UnsupportedVersion { .. })
    ));
}

#[test]
fn decode_rejects_inflated_max_layer() {
    let (h, _) = build(10, 4, 1);
    let mut bytes = h.to_bytes();
    bytes[36..44].copy_from_slice(&(h.max_layer() as u64 + 1).to_le_bytes());
    assert_eq!(
        Index::from_bytes(&bytes).unwrap_err(),
        HnswDecodeError::Invalid("entry point does not own the top layer")
    );
}

#[test]
fn decode_rejects_nonzero_max_layer_on_empty_graph() {
    let h = Index::new(Params::default());
    let mut bytes = h.to_bytes();
    bytes[36..44].copy_from_slice(&1u64.to_le_bytes());
    assert_eq!(
        Index::from_bytes(&bytes).unwrap_err(),
        HnswDecodeError::Invalid("empty graph with nonzero top layer")
    );
}

#[test]
fn decode_rejects_trailing_bytes() {
    let (h, _) = build(10, 4, 1);
    let mut bytes = h.to_bytes();
    bytes.push(0);
    assert_eq!(
        Index::from_bytes(&bytes).unwrap_err(),
        HnswDecodeError::Invalid("trailing bytes")
    );
}

#[test]
fn decode_of_any_prefix_errors_not_panics() {
    let (h, _) = build(12, 4, 5);
    let bytes = h.to_bytes();
    for cut in 0..bytes.len() {
        assert!(
            Index::from_bytes(&bytes[..cut]).is_err(),
            "prefix of {cut} bytes decoded successfully"
        );
    }
}

#[test]
fn higher_ef_does_not_reduce_recall() {
    let (dim, n) = (20usize, 500usize);
    let mut rng = 0x0000_CAFEu64;
    let mut h = Index::new(Params {
        m: 12,
        ef_construction: 80,
        gamma: 1.0,
        metric: Metric::L2,
        seed: 7,
    });
    for _ in 0..n {
        let v: Vec<f32> = (0..dim).map(|_| next_f64(&mut rng) as f32).collect();
        h.insert(v).unwrap();
    }
    let q: Vec<f32> = (0..dim).map(|_| next_f64(&mut rng) as f32).collect();
    let exact: HashSet<usize> = h.brute_force(&q, 10).unwrap().iter().map(|x| x.1).collect();
    let recall = |ef: usize| {
        h.search(&q, 10, ef)
            .unwrap()
            .iter()
            .filter(|(_, id)| exact.contains(id))
            .count()
    };
    assert!(
        recall(100) >= recall(10),
        "more ef_search should not reduce recall"
    );
}


fn build_labeled(n: usize, dim: usize, gamma: f32) -> (Index, u64) {
    let mut rng = 0x51EC_71F1u64;
    let mut h = Index::new(Params {
        m: 16,
        ef_construction: 100,
        gamma,
        metric: Metric::L2,
        seed: 4242,
    });
    for i in 0..n {
        let v: Vec<f32> = (0..dim).map(|_| next_f64(&mut rng) as f32).collect();
        h.insert_with_attrs(v, vec![AttrValue::Int((i % 100) as i64)])
            .expect("insert");
    }
    (h, rng)
}

fn selectivity(percent: i64) -> Predicate {
    Predicate::And(vec![Atom::Range {
        col: 0,
        lo: Bound::Unbounded,
        hi: Bound::Excluded(AttrValue::Int(percent)),
    }])
}

fn filtered_recall(h: &Index, rng: &mut u64, pred: &Predicate, ef: usize) -> (f64, f64) {
    let (dim, k, queries) = (h.dim(), 10usize, 20usize);
    let (mut aware_hits, mut post_hits, mut total) = (0usize, 0usize, 0usize);

    for _ in 0..queries {
        let q: Vec<f32> = (0..dim).map(|_| next_f64(rng) as f32).collect();
        let truth: HashSet<usize> = h
            .brute_force(&q, h.len())
            .expect("brute force")
            .into_iter()
            .filter(|&(_, id)| pred.matches(h.attrs(id)))
            .map(|(_, id)| id)
            .take(k)
            .collect();
        total += truth.len();

        let aware = h.search_filtered(&q, k, ef, pred).expect("filtered search");
        assert!(
            aware.iter().all(|&(_, id)| pred.matches(h.attrs(id))),
            "filtered search returned a non-matching node"
        );
        aware_hits += aware.iter().filter(|(_, id)| truth.contains(id)).count();

        post_hits += h
            .search(&q, ef, ef)
            .expect("search")
            .iter()
            .filter(|&&(_, id)| pred.matches(h.attrs(id)))
            .take(k)
            .filter(|(_, id)| truth.contains(id))
            .count();
    }
    (
        aware_hits as f64 / total as f64,
        post_hits as f64 / total as f64,
    )
}

#[test]
fn filtered_search_returns_only_matching_nodes() {
    let (h, mut rng) = build_labeled(600, 16, 1.0);
    let pred = selectivity(10);
    for _ in 0..10 {
        let q: Vec<f32> = (0..16).map(|_| next_f64(&mut rng) as f32).collect();
        let res = h
            .search_filtered(&q, 10, 64, &pred)
            .expect("filtered search");
        assert!(!res.is_empty(), "filtered search found nothing");
        for &(_, id) in &res {
            assert!(
                pred.matches(h.attrs(id)),
                "node {id} was returned but does not match: {:?}",
                h.attrs(id)
            );
        }
    }
}

fn search_fingerprint(h: &Index) -> u64 {
    const FNV_OFFSET: u64 = 0xcbf2_9ce4_8422_2325;
    const FNV_PRIME: u64 = 0x0000_0100_0000_01b3;
    let mut hash = FNV_OFFSET;
    let mut mix = |x: u64| {
        for b in x.to_le_bytes() {
            hash ^= b as u64;
            hash = hash.wrapping_mul(FNV_PRIME);
        }
    };
    let mut rng = 0x00C0_FFEEu64;
    for _ in 0..20 {
        let q: Vec<f32> = (0..16).map(|_| next_f64(&mut rng) as f32).collect();
        for &(k, ef) in &[(1usize, 1usize), (10, 64), (25, 200)] {
            let res = h.search(&q, k, ef).expect("search");
            mix(res.len() as u64);
            for (rank, &(_, id)) in res.iter().enumerate() {
                mix(rank as u64);
                mix(id as u64);
            }
        }
    }
    hash
}

const SEARCH_REFERENCE_FINGERPRINT: u64 = 0x4746_07C6_BEFA_E8F9;

#[test]
fn unfiltered_search_reproduces_pre_filter_results() {
    let (mut h, _) = build(200, 16, 42);
    for id in (0..h.len()).step_by(7) {
        h.delete(id).expect("delete");
    }
    assert_eq!(
        search_fingerprint(&h),
        SEARCH_REFERENCE_FINGERPRINT,
        "unfiltered search results drifted from their pre-filter behavior"
    );
}

#[test]
fn match_all_predicate_reproduces_unfiltered_search() {
    let (mut h, mut rng) = build_labeled(400, 16, 1.0);
    for id in (0..h.len()).step_by(7) {
        h.delete(id).expect("delete");
    }
    for _ in 0..10 {
        let q: Vec<f32> = (0..16).map(|_| next_f64(&mut rng) as f32).collect();
        assert_eq!(
            h.search_filtered(&q, 10, 64, &Predicate::All)
                .expect("filtered search"),
            h.search(&q, 10, 64).expect("search"),
            "the match-all predicate diverged from unfiltered search"
        );
    }
}

#[test]
fn filtered_search_never_returns_tombstoned_matches() {
    let (mut h, mut rng) = build_labeled(400, 16, 1.0);
    let pred = selectivity(50);
    let buried: Vec<usize> = (0..h.len())
        .filter(|&id| pred.matches(h.attrs(id)) && id % 3 == 0)
        .collect();
    for &id in &buried {
        h.delete(id).expect("delete");
    }
    let dead: HashSet<usize> = buried.into_iter().collect();
    for _ in 0..10 {
        let q: Vec<f32> = (0..16).map(|_| next_f64(&mut rng) as f32).collect();
        for (_, id) in h
            .search_filtered(&q, 10, 64, &pred)
            .expect("filtered search")
        {
            assert!(!dead.contains(&id), "returned tombstoned node {id}");
        }
    }
}

#[test]
fn unsatisfiable_predicate_terminates_and_returns_nothing() {
    let (h, mut rng) = build_labeled(600, 16, 1.0);
    let pred = Predicate::And(vec![Atom::Eq {
        col: 0,
        value: AttrValue::Int(4242),
    }]);
    for _ in 0..5 {
        let q: Vec<f32> = (0..16).map(|_| next_f64(&mut rng) as f32).collect();
        assert!(h
            .search_filtered(&q, 10, 64, &pred)
            .expect("filtered search")
            .is_empty());
    }
}

#[test]
fn bridging_reaches_a_lone_match() {
    let (mut h, mut rng) = (
        Index::new(Params {
            m: 16,
            ef_construction: 100,
            gamma: 1.0,
            metric: Metric::L2,
            seed: 31,
        }),
        0x0BAD_5EEDu64,
    );
    let n = 200usize;
    let needle = 137usize;
    for i in 0..n {
        let v: Vec<f32> = (0..16).map(|_| next_f64(&mut rng) as f32).collect();
        h.insert_with_attrs(v, vec![AttrValue::Int((i == needle) as i64)])
            .expect("insert");
    }
    let pred = Predicate::And(vec![Atom::Eq {
        col: 0,
        value: AttrValue::Int(1),
    }]);
    for _ in 0..10 {
        let q: Vec<f32> = (0..16).map(|_| next_f64(&mut rng) as f32).collect();
        let res = h
            .search_filtered(&q, 10, 64, &pred)
            .expect("filtered search");
        assert_eq!(
            res.iter().map(|&(_, id)| id).collect::<Vec<_>>(),
            vec![needle],
            "the only matching node was not reached"
        );
    }
}

#[test]
fn empty_conjunction_matches_everything() {
    let (h, mut rng) = build_labeled(400, 16, 1.0);
    let pred = Predicate::And(Vec::new());
    for _ in 0..5 {
        let q: Vec<f32> = (0..16).map(|_| next_f64(&mut rng) as f32).collect();
        let res = h
            .search_filtered(&q, 10, 64, &pred)
            .expect("filtered search");
        assert_eq!(res.len(), 10);
        let exact = h.brute_force(&q, 1).expect("brute force");
        assert_eq!(res[0], exact[0], "nearest neighbor missed");
    }
}

#[test]
fn selective_filter_keeps_recall_over_tombstones() {
    let (mut h, mut rng) = build_labeled(2000, 16, 1.0);
    for id in (0..h.len()).step_by(3) {
        h.delete(id).expect("delete");
    }
    let (aware, _) = filtered_recall(&h, &mut rng, &selectivity(1), 64);
    assert!(
        aware >= 0.9,
        "recall@10 at 1% selectivity over tombstones: {aware:.3}"
    );
}

#[test]
fn filtered_recall_beats_post_filtering() {
    let (h, mut rng) = build_labeled(2000, 16, 1.0);
    let ef = 64;

    let (aware, post) = filtered_recall(&h, &mut rng, &selectivity(50), ef);
    assert!(aware >= 0.95, "recall@10 at 50% selectivity: {aware:.3}");
    assert!(
        aware >= post - 0.02,
        "50% selectivity: aware {aware:.3} regressed against post-filter {post:.3}"
    );

    let (aware, post) = filtered_recall(&h, &mut rng, &selectivity(10), ef);
    assert!(aware >= 0.9, "recall@10 at 10% selectivity: {aware:.3}");
    assert!(
        aware >= post + 0.25,
        "10% selectivity: aware {aware:.3} vs post-filter {post:.3} at ef={ef}"
    );

    let (aware, post) = filtered_recall(&h, &mut rng, &selectivity(1), ef);
    assert!(aware >= 0.9, "recall@10 at 1% selectivity: {aware:.3}");
    assert!(
        aware >= post + 0.5,
        "1% selectivity: aware {aware:.3} vs post-filter {post:.3} at ef={ef}"
    );
}
