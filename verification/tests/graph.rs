use brindle::distance::Kernel;
use brindle::filter::{Atom, AttrValue, Predicate};
use brindle::hnsw::insert::xorshift64;
use brindle::hnsw::params::{clamp_gamma, derived_params, scale_degree};
use brindle::hnsw::source::{ByteReader, GraphBytes, HnswDecodeError};
use brindle::hnsw::{Hnsw, HnswError, HnswParams};
use brindle::vector::Metric;

fn kernel(which: Kernel, a: &[u32], b: &[u32]) -> u32 {
    let pairs = || {
        a.iter()
            .zip(b)
            .map(|(x, y)| (f32::from_bits(*x), f32::from_bits(*y)))
    };
    let r: f32 = match which {
        Kernel::L2Squared => pairs().map(|(x, y)| (x - y) * (x - y)).sum(),
        _ => pairs().map(|(x, y)| x * y).sum(),
    };
    r.to_bits()
}

fn level(draw: u64, m: usize) -> usize {
    let r = (draw as f64 / (1u64 << 53) as f64).max(f64::MIN_POSITIVE);
    (-r.ln() * (1.0 / (m as f64).ln())).floor() as usize
}

fn bits(v: &[f32]) -> Vec<u32> {
    v.iter().map(|x| x.to_bits()).collect()
}

fn random(n: usize, dim: usize) -> Vec<Vec<u32>> {
    let mut state = 0x1234_5678_9ABC_DEF1u64;
    (0..n)
        .map(|_| {
            (0..dim)
                .map(|_| (((xorshift64(&mut state) >> 40) as f32) / 16_777_216.0).to_bits())
                .collect()
        })
        .collect()
}

fn built(rows: &[Vec<u32>]) -> Hnsw {
    let mut h = Hnsw::new(HnswParams::default());
    for v in rows {
        assert!(h.can_insert(&level, v));
        h.insert(&kernel, &level, v.clone()).unwrap();
    }
    h
}

#[test]
fn the_generator_steps_as_xorshift() {
    let mut state = 1u64;
    assert_eq!(xorshift64(&mut state), 0x4082_2041);
    assert_eq!(state, 0x4082_2041);
    assert_eq!(xorshift64(&mut state), 0x1000_4106_0C01_1441);
}

#[test]
fn parameters_are_clamped() {
    let two = 2.0f32.to_bits();
    assert_eq!(clamp_gamma(two), two);
    for bad in [0.5f32, -1.0, f32::NAN, f32::INFINITY, f32::NEG_INFINITY] {
        assert_eq!(f32::from_bits(clamp_gamma(bad.to_bits())), 1.0);
    }
    assert_eq!(f32::from_bits(clamp_gamma(1e9f32.to_bits())), 1024.0);
    assert_eq!(scale_degree(16, 1.0f32.to_bits()), 16);
    for base in [2usize, 3, 7, 16, 17, 128, 1000] {
        for gamma in [1.0f32, 1.1, 1.5, 2.7, 9.99, 512.3, 1024.0] {
            let want = (base as f32 * gamma).round() as usize;
            let got = scale_degree(base, gamma.to_bits());
            assert_eq!(got, want, "{base} * {gamma}");
        }
    }
    let (gamma, up, bottom, floor) = derived_params(8, two);
    assert_eq!((gamma, up, bottom), (two, 16, 32));
    assert!(floor <= 32);
}

#[test]
fn an_insert_adds_one_node_and_moves_none() {
    let rows = random(120, 6);
    let mut h = built(&rows[..100]);
    for (i, v) in rows.iter().enumerate().skip(100) {
        let before: Vec<Vec<u32>> = (0..h.len()).map(|id| h.vector(id).to_vec()).collect();
        let id = h
            .insert_with_attrs(&kernel, &level, v.clone(), vec![AttrValue::Int(i as i64)])
            .unwrap();
        assert_eq!(id, i);
        assert_eq!(h.len(), i + 1);
        assert_eq!(h.vector(id), &v[..]);
        for (k, old) in before.iter().enumerate() {
            assert_eq!(h.vector(k), &old[..]);
        }
    }
    assert!(h.is_layered());
}

#[test]
fn attribute_rows_leave_the_links_alone() {
    let rows = random(150, 6);
    let plain = built(&rows);
    let mut tagged = Hnsw::new(HnswParams::default());
    for (i, v) in rows.iter().enumerate() {
        let row = vec![AttrValue::Int(i as i64); i % 4];
        tagged
            .insert_with_attrs(&kernel, &level, v.clone(), row)
            .unwrap();
    }
    for id in 0..plain.len() {
        assert_eq!(plain.levels(id), tagged.levels(id));
        for layer in 0..plain.levels(id) {
            assert_eq!(plain.neighbors(id, layer), tagged.neighbors(id, layer));
        }
    }
}

#[test]
fn refusals_leave_the_graph_as_it_was() {
    let rows = random(20, 4);
    let mut h = built(&rows);
    let before = h.to_bytes();
    assert_eq!(
        h.insert(&kernel, &level, Vec::new()),
        Err(HnswError::EmptyVector)
    );
    assert_eq!(
        h.insert(&kernel, &level, vec![0; 5]),
        Err(HnswError::DimensionMismatch {
            expected: 4,
            got: 5
        })
    );
    let err = h.insert(&kernel, &level, vec![0; 16_001]).unwrap_err();
    assert_eq!(
        err,
        HnswError::DimensionTooLarge {
            got: 16_001,
            max: 16_000
        }
    );
    assert_eq!(
        err.message(),
        "vector has 16001 dimensions, the maximum is 16000"
    );
    assert_eq!(h.to_bytes(), before);
}

#[test]
fn graph_errors_explain_themselves() {
    assert_eq!(
        HnswError::EmptyVector.message(),
        "vector must not be empty"
    );
    assert_eq!(
        HnswError::UnknownNode { id: 9 }.message(),
        "unknown node id: 9"
    );
    assert_eq!(
        HnswError::NodeLimitReached { limit: 4294967295 }.message(),
        "graph is full: 4294967295 nodes is the ceiling for 32-bit ids"
    );
    assert_eq!(
        HnswDecodeError::Truncated.message(),
        "serialized graph is truncated"
    );
    assert_eq!(
        HnswDecodeError::BadMagic.message(),
        "not a serialized graph (bad magic)"
    );
    assert_eq!(
        HnswDecodeError::UnsupportedVersion { got: 255 }.message(),
        "unsupported graph format version 255"
    );
    assert_eq!(
        HnswDecodeError::Invalid("trailing bytes").message(),
        "invalid serialized graph: trailing bytes"
    );
}

#[test]
fn exact_search_leaves_out_nothing_nearer() {
    let rows = random(200, 5);
    let mut h = built(&rows);
    for id in (0..200).step_by(4) {
        h.delete(id).unwrap();
    }
    let q = &random(201, 5)[200];
    let near = h.brute_force(&kernel, q, 10).unwrap();
    assert_eq!(near.len(), 10);
    let worst = f32::from_bits(near[9].0);
    for id in 0..200 {
        let d = f32::from_bits(kernel(Kernel::L2Squared, q, h.vector(id)));
        let listed = near.iter().any(|&(_, other)| other == id);
        assert!(listed || h.is_deleted(id) || d >= worst);
        assert!(!(listed && h.is_deleted(id)));
    }
    assert_eq!(h.brute_force(&kernel, q, 1000).unwrap().len(), 150);
    assert_eq!(
        h.brute_force(&kernel, &q[..3], 1),
        Err(HnswError::DimensionMismatch {
            expected: 5,
            got: 3
        })
    );
    assert_eq!(
        h.search(&kernel, &q[..3], 1, 1),
        Err(HnswError::DimensionMismatch {
            expected: 5,
            got: 3
        })
    );
    assert_eq!(h.search(&kernel, q, 0, 10), Ok(Vec::new()));
}

#[test]
fn answers_are_ordered_and_distinct() {
    let rows = random(300, 5);
    let h = built(&rows);
    for q in &random(310, 5)[300..] {
        let found = h.search(&kernel, q, 25, 60).unwrap();
        assert_eq!(found.len(), 25);
        for w in found.windows(2) {
            assert!(f32::from_bits(w[0].0) <= f32::from_bits(w[1].0));
        }
        let mut ids: Vec<usize> = found.iter().map(|&(_, id)| id).collect();
        ids.sort_unstable();
        ids.dedup();
        assert_eq!(ids.len(), 25);
        for &(d, id) in &found {
            assert_eq!(d, kernel(Kernel::L2Squared, q, h.vector(id)));
        }
    }
}

#[test]
fn deleting_twice_is_deleting_once() {
    let rows = random(30, 4);
    let mut h = built(&rows);
    h.delete(5).unwrap();
    let once = h.to_bytes();
    h.delete(5).unwrap();
    assert_eq!(h.to_bytes(), once);
    assert_eq!((h.deleted_count(), h.live_len()), (1, 29));
}

#[test]
fn a_rebuild_keeps_the_live_rows_in_order() {
    let rows = random(60, 4);
    let mut h = built(&rows);
    for id in (0..60).step_by(3) {
        h.delete(id).unwrap();
    }
    let kept: Vec<Vec<u32>> = (0..60)
        .filter(|id| id % 3 != 0)
        .map(|id| rows[id].clone())
        .collect();
    assert_eq!(h.compact(&kernel, &level), Ok(40));
    assert_eq!(h.to_bytes(), built(&kept).to_bytes());
}

#[test]
fn an_unreachable_predicate_value_matches_no_missing_column() {
    let rows = random(40, 4);
    let h = built(&rows);
    let pred = Predicate::And(vec![Atom::Eq {
        col: 0,
        value: AttrValue::Int(1),
    }]);
    assert_eq!(
        h.search_filtered(&kernel, &rows[0], 5, 20, &pred),
        Ok(Vec::new())
    );
}

#[test]
fn a_reader_hands_out_its_bytes_once() {
    let data = [1u8, 2, 3, 4, 5];
    let mut r = ByteReader::new(&data);
    assert_eq!(r.take(2).unwrap(), &[1, 2]);
    assert_eq!(r.remaining(), 3);
    assert!(matches!(r.take(4), Err(HnswDecodeError::Truncated)));
    assert_eq!(r.remaining(), 3);
    assert_eq!(r.u16().unwrap(), 0x0403);
    assert_eq!(r.u8().unwrap(), 5);
    assert!(r.done());
    assert!(matches!(r.u8(), Err(HnswDecodeError::Truncated)));

    let mut s: &[u8] = &[0xff, 0, 0, 0, 0, 0, 0, 0, 7];
    assert_eq!(s.read_len().unwrap(), 255);
    assert_eq!(s.remaining(), 1);
    assert!(matches!(s.u32(), Err(HnswDecodeError::Truncated)));
}

#[test]
fn a_graph_with_a_link_outside_its_layer_is_noticed() {
    let rows = random(200, 4);
    let h = built(&rows);
    assert!(h.is_layered());
    let top = (0..200).find(|&id| h.levels(id) > 1 && !h.neighbors(id, 1).is_empty());
    let flat = (0..200u64).find(|&id| h.levels(id as usize) == 1).unwrap();
    let id = top.unwrap();
    let mut at = 76;
    for k in 0..id {
        let links: usize = (0..h.levels(k)).map(|l| 8 + 8 * h.neighbors(k, l).len()).sum();
        at += 1 + 8 + 16 + links + 8;
    }
    at += 1 + 8 + 16 + 8 + 8 * h.neighbors(id, 0).len() + 8;
    let mut bytes = h.to_bytes();
    let old = h.neighbors(id, 1)[0] as u64;
    assert_eq!(bytes[at..at + 8], old.to_le_bytes());
    bytes[at..at + 8].copy_from_slice(&flat.to_le_bytes());
    let broken = Hnsw::from_bytes(&bytes).ok().unwrap();
    assert!(!broken.is_layered());
}

#[test]
fn metrics_rank_by_their_own_kernel() {
    let mut h = Hnsw::new(HnswParams {
        metric: Metric::InnerProduct,
        ..HnswParams::default()
    });
    for v in [[1.0f32, 0.0], [5.0, 0.0], [0.0, 9.0]] {
        h.insert(&kernel, &level, bits(&v)).unwrap();
    }
    let found = h.search(&kernel, &bits(&[1.0, 0.0]), 3, 10).unwrap();
    let ids: Vec<usize> = found.iter().map(|&(_, id)| id).collect();
    assert_eq!(ids, vec![1, 0, 2]);
    assert_eq!(f32::from_bits(found[0].0), -5.0);
}

#[test]
fn no_list_repeats_or_names_its_own_node() {
    let h = built(&random(300, 4));
    for id in 0..h.len() {
        for layer in 0..h.levels(id) {
            let list = h.neighbors(id, layer);
            assert!(list.iter().all(|&n| n as usize != id));
            let mut once = list.to_vec();
            once.sort_unstable();
            once.dedup();
            assert_eq!(once.len(), list.len());
        }
    }
}

#[test]
fn small_indexes_are_searched_exactly() {
    let rows = random(33, 4);
    let mut h = built(&rows);
    let queries = random(50, 4);
    for gone in [0usize, 7, 19, 32] {
        h.delete(gone).unwrap();
        for q in &queries {
            for (k, ef) in [(5, 33), (33, 1), (50, 40)] {
                assert_eq!(h.search(&kernel, q, k, ef), h.brute_force(&kernel, q, k));
            }
        }
    }
}

#[test]
fn compacting_without_tombstones_changes_nothing() {
    let mut h = built(&random(80, 4));
    let before = h.to_bytes();
    assert!(h.can_compact(&level));
    assert_eq!(h.compact(&kernel, &level), Ok(80));
    assert_eq!(h.to_bytes(), before);
}

#[test]
fn a_rebuild_that_outgrows_its_offsets_is_foreseen() {
    let h = built(&random(3, 4));
    let wild = |_: u64, _: usize| -> usize { 0x8000_0000 };
    assert!(!h.can_compact(&wild));
    let empty = Hnsw::new(HnswParams::default());
    assert!(empty.can_compact(&wild));
}

#[test]
fn attribute_rows_shape_neither_graph_nor_search() {
    let rows = random(120, 4);
    let plain = built(&rows);
    let mut dressed = Hnsw::new(HnswParams::default());
    for (i, v) in rows.iter().enumerate() {
        let attrs = vec![AttrValue::Int(i as i64), AttrValue::Null];
        dressed.insert_with_attrs(&kernel, &level, v.clone(), attrs).unwrap();
    }
    for id in 0..120 {
        for layer in 0..plain.levels(id) {
            assert_eq!(plain.neighbors(id, layer), dressed.neighbors(id, layer));
        }
    }
    for q in &random(20, 4) {
        assert_eq!(
            plain.search(&kernel, q, 10, 30),
            dressed.search(&kernel, q, 10, 30)
        );
    }
    assert_eq!(
        dressed.serialized_len_hint(),
        dressed.to_bytes().len() + 8 * 120
    );
}

#[test]
fn prefixes_are_refused_even_beyond_the_decoders_limits() {
    let mut h = Hnsw::new(HnswParams {
        m: 200,
        ..HnswParams::default()
    });
    for v in &random(6, 3) {
        h.insert(&kernel, &level, v.clone()).unwrap();
    }
    let bytes = h.to_bytes();
    for cut in 0..=bytes.len() {
        assert!(Hnsw::from_bytes(&bytes[..cut]).is_err());
    }
}

#[test]
fn inserts_stray_only_over_stray_links() {
    let rows = random(200, 4);
    let mut h = built(&rows);
    let v = random(1, 4).remove(0);
    assert_eq!(
        h.insert_or_stray(&kernel, &level, v, Vec::new()),
        Ok(Some(200))
    );
    assert!(matches!(
        h.insert_or_stray(&kernel, &level, Vec::new(), Vec::new()),
        Err(HnswError::EmptyVector)
    ));
}
