use brindle::distance;
use brindle::distance::{DistanceError, Kernel};

/// The distance kernels, on `f32` bits.
fn kernel(which: Kernel, a: &[u32], b: &[u32]) -> u32 {
    let pairs = || {
        a.iter()
            .zip(b)
            .map(|(x, y)| (f32::from_bits(*x), f32::from_bits(*y)))
    };
    let r = match which {
        Kernel::L2Squared => {
            let mut acc = 0.0f32;
            for (x, y) in pairs() {
                let d = x - y;
                acc += d * d;
            }
            acc
        }
        Kernel::Dot => pairs().map(|(x, y)| x * y).sum(),
        Kernel::Norms | Kernel::Cosine => {
            let (mut dot, mut norm_a, mut norm_b) = (0.0f32, 0.0f32, 0.0f32);
            for (x, y) in pairs() {
                dot += x * y;
                norm_a += x * x;
                norm_b += y * y;
            }
            let norms = norm_a.sqrt() * norm_b.sqrt();
            if which == Kernel::Norms {
                norms
            } else {
                1.0 - dot / norms
            }
        }
    };
    r.to_bits()
}

fn bits(v: &[f32]) -> Vec<u32> {
    v.iter().map(|x| x.to_bits()).collect()
}

fn sqrt(x: u32) -> u32 {
    f32::from_bits(x).sqrt().to_bits()
}

fn l2_distance(a: &[f32], b: &[f32]) -> Result<f32, DistanceError> {
    distance::l2_distance(&kernel, &sqrt, &bits(a), &bits(b)).map(f32::from_bits)
}

fn l2_squared(a: &[f32], b: &[f32]) -> Result<f32, DistanceError> {
    distance::l2_squared(&kernel, &bits(a), &bits(b)).map(f32::from_bits)
}

fn cosine_distance(a: &[f32], b: &[f32]) -> Result<f32, DistanceError> {
    distance::cosine_distance(&kernel, &bits(a), &bits(b)).map(f32::from_bits)
}

fn inner_product(a: &[f32], b: &[f32]) -> Result<f32, DistanceError> {
    distance::inner_product(&kernel, &bits(a), &bits(b)).map(f32::from_bits)
}

fn negative_inner_product(a: &[f32], b: &[f32]) -> Result<f32, DistanceError> {
    distance::negative_inner_product(&kernel, &bits(a), &bits(b)).map(f32::from_bits)
}

const EPS: f32 = 1e-5;

#[test]
fn l2_known_value() {
    let d = l2_distance(&[1.0, 2.0, 3.0], &[4.0, 5.0, 6.0]).unwrap();
    assert!((d - 5.196_152).abs() < EPS, "got {d}");
}

#[test]
fn l2_squared_skips_sqrt() {
    let d = l2_squared(&[1.0, 2.0, 3.0], &[4.0, 5.0, 6.0]).unwrap();
    assert!((d - 27.0).abs() < EPS, "got {d}");
}

#[test]
fn distance_to_self_is_zero() {
    let v = [0.3, -1.2, 4.0, 9.5];
    assert!(l2_distance(&v, &v).unwrap().abs() < EPS);
    assert!(cosine_distance(&v, &v).unwrap().abs() < EPS);
}

#[test]
fn distance_cosine_orthogonal_is_one() {
    let d = cosine_distance(&[1.0, 0.0], &[0.0, 1.0]).unwrap();
    assert!((d - 1.0).abs() < EPS, "got {d}");
}

#[test]
fn cosine_opposite_is_two() {
    let d = cosine_distance(&[1.0, 0.0], &[-1.0, 0.0]).unwrap();
    assert!((d - 2.0).abs() < EPS, "got {d}");
}

#[test]
fn cosine_zero_vector_is_nan() {
    let d = cosine_distance(&[0.0, 0.0], &[1.0, 2.0]).unwrap();
    assert!(d.is_nan());
}

#[test]
fn inner_product_basic() {
    assert!((inner_product(&[1.0, 2.0, 3.0], &[4.0, 5.0, 6.0]).unwrap() - 32.0).abs() < EPS);
    assert!(
        (negative_inner_product(&[1.0, 2.0, 3.0], &[4.0, 5.0, 6.0]).unwrap() + 32.0).abs()
            < EPS
    );
}

#[test]
fn distance_dimension_mismatch_errors() {
    let err = l2_distance(&[1.0, 2.0], &[1.0]).unwrap_err();
    assert_eq!(err, DistanceError::DimensionMismatch { left: 2, right: 1 });
}

#[test]
fn every_distance_refuses_mismatched_operands() {
    let want = DistanceError::DimensionMismatch { left: 1, right: 3 };
    assert_eq!(l2_squared(&[1.0], &[1.0, 2.0, 3.0]).unwrap_err(), want);
    assert_eq!(cosine_distance(&[1.0], &[1.0, 2.0, 3.0]).unwrap_err(), want);
    assert_eq!(inner_product(&[1.0], &[1.0, 2.0, 3.0]).unwrap_err(), want);
    assert_eq!(
        negative_inner_product(&[1.0], &[1.0, 2.0, 3.0]).unwrap_err(),
        want
    );
    assert_eq!(want.message(), "vector dimension mismatch: 1 != 3");
}

#[test]
fn negating_the_inner_product_flips_only_the_sign() {
    let a = bits(&[1.0, 0.0]);
    let b = bits(&[0.0, 1.0]);
    let plain = distance::inner_product(&kernel, &a, &b).unwrap();
    let negative = distance::negative_inner_product(&kernel, &a, &b).unwrap();
    assert_eq!(plain ^ negative, 0x8000_0000);
    assert_eq!(distance::dot(&kernel, &a, &b), plain);
}

#[test]
fn a_zero_norm_of_either_sign_is_no_cosine() {
    let claims = |norms: f32| {
        move |which: Kernel, _: &[u32], _: &[u32]| match which {
            Kernel::Norms => norms.to_bits(),
            _ => 0.25f32.to_bits(),
        }
    };
    let v = bits(&[1.0]);
    assert_eq!(distance::cosine_distance(&claims(0.0), &v, &v), Ok(f32::NAN.to_bits()));
    assert_eq!(distance::cosine_distance(&claims(-0.0), &v, &v), Ok(f32::NAN.to_bits()));
    assert_eq!(distance::cosine_distance(&claims(f32::NAN), &v, &v), Ok(0.25f32.to_bits()));
    assert_eq!(distance::cosine_distance(&claims(1e-45), &v, &v), Ok(0.25f32.to_bits()));
}
