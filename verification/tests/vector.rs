use brindle::distance::{DistanceError, Kernel};
use brindle::vector::{validate_dim, Metric};

/// The distance kernels, on `f32` bits.
fn kernel(which: Kernel, a: &[u32], b: &[u32]) -> u32 {
    let pairs = || {
        a.iter()
            .zip(b)
            .map(|(x, y)| (f32::from_bits(*x), f32::from_bits(*y)))
    };
    let r = match which {
        Kernel::L2Squared => {
            let mut acc = 0.0f32;
            for (x, y) in pairs() {
                let d = x - y;
                acc += d * d;
            }
            acc
        }
        Kernel::Dot => pairs().map(|(x, y)| x * y).sum(),
        Kernel::Norms | Kernel::Cosine => {
            let (mut dot, mut norm_a, mut norm_b) = (0.0f32, 0.0f32, 0.0f32);
            for (x, y) in pairs() {
                dot += x * y;
                norm_a += x * x;
                norm_b += y * y;
            }
            let norms = norm_a.sqrt() * norm_b.sqrt();
            if which == Kernel::Norms {
                norms
            } else {
                1.0 - dot / norms
            }
        }
    };
    r.to_bits()
}

fn bits(v: &[f32]) -> Vec<u32> {
    v.iter().map(|x| x.to_bits()).collect()
}

fn distance(metric: Metric, a: &[f32], b: &[f32]) -> Result<f32, DistanceError> {
    metric
        .distance(&kernel, &bits(a), &bits(b))
        .map(f32::from_bits)
}

const EPS: f32 = 1e-5;

#[test]
fn l2_uses_squared_distance() {
    let d = distance(Metric::L2, &[1.0, 2.0, 3.0], &[4.0, 5.0, 6.0])
        .unwrap();
    assert!((d - 27.0).abs() < EPS, "got {d}");
}

#[test]
fn vector_cosine_orthogonal_is_one() {
    let d = distance(Metric::Cosine, &[1.0, 0.0], &[0.0, 1.0]).unwrap();
    assert!((d - 1.0).abs() < EPS, "got {d}");
}

#[test]
fn inner_product_smaller_is_nearer() {
    let near = distance(Metric::InnerProduct, &[1.0, 1.0], &[1.0, 1.0])
        .unwrap();
    let far = distance(Metric::InnerProduct, &[1.0, 1.0], &[0.0, 0.0])
        .unwrap();
    assert!(near < far, "near={near} should be < far={far}");
}

#[test]
fn dimension_mismatch_is_error_not_panic() {
    assert!(distance(Metric::L2, &[1.0, 2.0], &[1.0]).is_err());
    assert!(validate_dim(&bits(&[1.0, 2.0]), 3).is_err());
    assert!(validate_dim(&bits(&[1.0, 2.0]), 2).is_ok());
}

#[test]
fn metric_codes_round_trip() {
    for metric in [Metric::L2, Metric::Cosine, Metric::InnerProduct] {
        assert_eq!(Metric::from_code(metric.code()), Some(metric));
    }
    assert_eq!(Metric::L2.code(), 0);
    assert_eq!(Metric::Cosine.code(), 1);
    assert_eq!(Metric::InnerProduct.code(), 2);
    assert_eq!(Metric::from_code(3), None);
}

#[test]
fn a_wrong_dimension_is_named() {
    assert_eq!(
        validate_dim(&bits(&[1.0, 2.0]), 3).unwrap_err(),
        DistanceError::DimensionMismatch { left: 3, right: 2 }
    );
}

#[test]
fn every_metric_is_symmetric() {
    let (a, b) = ([1.5f32, -2.0, 0.25], [0.5f32, 3.0, -7.0]);
    for metric in [Metric::L2, Metric::Cosine, Metric::InnerProduct] {
        assert_eq!(distance(metric, &a, &b), distance(metric, &b, &a));
    }
    assert_eq!(distance(Metric::L2, &a, &b), Ok(78.5625));
}

#[test]
fn squared_distances_are_not_negative() {
    for (a, b) in [
        ([0.0f32, -0.0, 1.0], [-0.0f32, 0.0, 1.0]),
        ([1e-30, -1e-30, 5.0], [-1e-30, 1e-30, -5.0]),
        ([f32::MAX, 0.0, 0.0], [-f32::MAX, 0.0, 0.0]),
    ] {
        let d = distance(Metric::L2, &a, &b).unwrap();
        assert!(d >= 0.0, "{d}");
    }
    let nan = distance(Metric::L2, &[f32::NAN], &[0.0]).unwrap();
    assert!(nan.is_nan());
}
