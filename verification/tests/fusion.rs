use brindle::fusion;
use brindle::fusion::{FusionError, FusionStrategy, Rrf, DEFAULT_RRF_K};

const DEFAULT_K: f64 = 60.0;

/// `1 / (k + rank)`, on `f64` bits.
fn contribute(k: u64, rank: u64) -> u64 {
    (1.0 / (f64::from_bits(k) + rank as f64)).to_bits()
}

fn sum(a: u64, b: u64) -> u64 {
    (f64::from_bits(a) + f64::from_bits(b)).to_bits()
}

fn floats(fused: Vec<(u64, u64)>) -> Vec<(u64, f64)> {
    fused
        .into_iter()
        .map(|(id, score)| (id, f64::from_bits(score)))
        .collect()
}

fn rrf(rankings: &[&[u64]], k: f64) -> Result<Vec<(u64, f64)>, FusionError> {
    fusion::rrf(&contribute, &sum, rankings, k.to_bits()).map(floats)
}

fn strategy(s: Rrf, rankings: &[&[u64]]) -> Result<Vec<(u64, f64)>, FusionError> {
    s.fuse(&contribute, &sum, rankings).map(floats)
}

const EPS: f64 = 1e-12;

fn ids(fused: &[(u64, f64)]) -> Vec<u64> {
    fused.iter().map(|&(id, _)| id).collect()
}

#[test]
fn worked_example_matches_hand_computed_scores() {
    let fused = rrf(&[&[10, 20, 30], &[20, 40, 10]], 60.0).unwrap();
    let expected = [
        (20, 1.0 / 61.0 + 1.0 / 62.0),
        (10, 1.0 / 61.0 + 1.0 / 63.0),
        (40, 1.0 / 62.0),
        (30, 1.0 / 63.0),
    ];
    assert_eq!(fused.len(), expected.len());
    for ((id, score), (want_id, want_score)) in fused.iter().zip(expected) {
        assert_eq!(*id, want_id);
        assert!((score - want_score).abs() < EPS, "id {id}: got {score}");
    }
}

#[test]
fn consensus_beats_single_list_number_one() {
    let fused = rrf(&[&[1, 2, 3], &[4, 2, 3]], DEFAULT_K).unwrap();
    assert_eq!(ids(&fused)[0], 2, "consensus item must win: {fused:?}");
}

#[test]
fn exact_ties_break_by_ascending_id() {
    let fused = rrf(&[&[4, 9], &[1, 3]], DEFAULT_K).unwrap();
    assert_eq!(ids(&fused), vec![1, 4, 3, 9]);
}

#[test]
fn empty_input_yields_empty_output() {
    assert!(rrf(&[], DEFAULT_K).unwrap().is_empty());
    assert!(rrf(&[&[], &[]], DEFAULT_K).unwrap().is_empty());
}

#[test]
fn single_list_preserves_its_order() {
    let fused = rrf(&[&[7, 3, 9]], DEFAULT_K).unwrap();
    assert_eq!(ids(&fused), vec![7, 3, 9]);
    assert!(fused.windows(2).all(|w| w[0].1 > w[1].1));
}

#[test]
fn duplicate_within_a_list_counts_once_at_best_rank() {
    let fused = rrf(&[&[5, 6, 5]], 60.0).unwrap();
    assert_eq!(ids(&fused), vec![5, 6]);
    assert!((fused[0].1 - 1.0 / 61.0).abs() < EPS, "got {}", fused[0].1);
    let fused = rrf(&[&[5, 6, 5], &[5]], 60.0).unwrap();
    assert!((fused[0].1 - 2.0 / 61.0).abs() < EPS, "got {}", fused[0].1);
}

#[test]
fn strategy_default_is_k_60() {
    let via_strategy = strategy(Rrf::default(), &[&[10, 20], &[20, 10]]).unwrap();
    let direct = rrf(&[&[10, 20], &[20, 10]], 60.0).unwrap();
    assert_eq!(via_strategy, direct);
}

#[test]
fn invalid_k_is_rejected() {
    assert!(matches!(
        rrf(&[&[1, 2]], -3.0),
        Err(FusionError::InvalidK { k }) if f64::from_bits(k) == -3.0
    ));
    assert!(rrf(&[&[1]], f64::NAN).is_err());
    assert!(rrf(&[&[1]], f64::INFINITY).is_err());
    assert!(strategy(Rrf { k: (-1.0f64).to_bits() }, &[&[1]]).is_err());
    assert!(rrf(&[&[1]], 0.0).is_ok());
}

#[test]
fn the_default_constant_is_sixty() {
    assert_eq!(f64::from_bits(DEFAULT_RRF_K), DEFAULT_K);
}

#[test]
fn an_invalid_constant_is_named() {
    let err = fusion::rrf(&contribute, &sum, &[&[1]], (-3.0f64).to_bits()).unwrap_err();
    assert_eq!(
        err.message("-3"),
        "invalid RRF k: -3 (must be finite and >= 0)"
    );
    assert!(rrf(&[&[1]], f64::NEG_INFINITY).is_err());
    assert!(rrf(&[&[1]], -0.0).is_ok());
}

#[test]
fn later_duplicates_change_nothing() {
    let once = rrf(&[&[5, 6, 7], &[7]], 60.0).unwrap();
    let twice = rrf(&[&[5, 6, 5, 7], &[7, 7]], 60.0).unwrap();
    assert_eq!(ids(&once), ids(&twice));
    assert_eq!(
        twice[0],
        (7, 1.0 / (60.0 + 4.0) + 1.0 / (60.0 + 1.0))
    );
}
