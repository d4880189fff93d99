//! Distance kernels behind a dimension check.
//!
//! The arithmetic of a kernel is floating point and comes from the caller as a
//! function on bit patterns; what this module owns is which kernel a metric
//! means, that operands of different dimensionality never reach one, that cosine
//! is undefined where a norm is zero, and the sign flip that makes a larger inner
//! product the smaller distance.

use crate::floats::{f32_is_nan, f32_mag, f32_neg, f32_negate, F32_NAN, F32_SIGN};
use crate::text::{decimal, push_decimal};
use vstd::prelude::*;

verus! {

/// Error returned by distance kernels for malformed input.
#[derive(Debug, Clone, Copy, PartialEq, Eq, Structural)]
pub enum DistanceError {
    /// Operands have different dimensionality.
    DimensionMismatch { left: usize, right: usize },
}

impl DistanceError {
    /// The text a user sees.
    pub open spec fn text(self) -> Seq<char> {
        match self {
            DistanceError::DimensionMismatch { left, right } => "vector dimension mismatch: "@
                + decimal(left as nat) + " != "@ + decimal(right as nat),
        }
    }

    /// The text a user sees.
    pub fn message(&self) -> (s: String)
        ensures
            s@ == self.text(),
    {
        let mut s = String::new();
        match self {
            DistanceError::DimensionMismatch { left, right } => {
                s.append("vector dimension mismatch: ");
                push_decimal(&mut s, *left as u64);
                s.append(" != ");
                push_decimal(&mut s, *right as u64);
            },
        }
        assert(s@ =~= self.text());
        s
    }
}

/// The floating-point reductions a distance is made of.
#[derive(Debug, Clone, Copy, PartialEq, Eq, Structural)]
pub enum Kernel {
    /// Sum of squared component differences.
    L2Squared,
    /// Product of the two norms.
    Norms,
    /// One less the dot product over [`Kernel::Norms`], where that is no zero.
    Cosine,
    /// Sum of component products.
    Dot,
}

/// A kernel function answers every question, and always the same way.
pub open spec fn kernel_ok<K: Fn(Kernel, &[u32], &[u32]) -> u32>(kernel: K) -> bool {
    &&& forall|which: Kernel, a: &[u32], b: &[u32]| #[trigger]
        call_requires(kernel, (which, a, b))
    &&& forall|which: Kernel, a: &[u32], b: &[u32], d: u32, e: u32| #[trigger]
        call_ensures(kernel, (which, a, b), d) && #[trigger] call_ensures(kernel, (which, a, b), e)
            ==> d == e
}

/// `kernel` may answer `d` on operands with these components.
pub open spec fn kernel_gives<K: Fn(Kernel, &[u32], &[u32]) -> u32>(
    kernel: K,
    which: Kernel,
    a: Seq<u32>,
    b: Seq<u32>,
    d: u32,
) -> bool {
    exists|x: &[u32], y: &[u32]|
        x@ == a && y@ == b && #[trigger] call_ensures(kernel, (which, x, y), d)
}

/// What `kernel` answers on operands with these components.
pub open spec fn kernel_value<K: Fn(Kernel, &[u32], &[u32]) -> u32>(
    kernel: K,
    which: Kernel,
    a: Seq<u32>,
    b: Seq<u32>,
) -> u32 {
    choose|d: u32| kernel_gives(kernel, which, a, b, d)
}

/// Call a kernel.
fn run<K: Fn(Kernel, &[u32], &[u32]) -> u32>(
    kernel: &K,
    which: Kernel,
    a: &[u32],
    b: &[u32],
) -> (d: u32)
    requires
        kernel_ok(*kernel),
    ensures
        d == kernel_value(*kernel, which, a@, b@),
{
    let d: u32 = kernel(which, a, b);
    proof {
        let e = kernel_value(*kernel, which, a@, b@);
        assert(kernel_gives(*kernel, which, a@, b@, d));
        let (x, y) = choose|x: &[u32], y: &[u32]|
            x@ == a@ && y@ == b@ && #[trigger] call_ensures(*kernel, (which, x, y), e);
        assert(x =~= a);
        assert(y =~= b);
    }
    d
}

/// The error two operands get, if their dimensionality differs.
pub open spec fn dims_checked<T>(a: nat, b: nat, value: T) -> Result<T, DistanceError> {
    if a != b {
        Err(DistanceError::DimensionMismatch { left: a as usize, right: b as usize })
    } else {
        Ok(value)
    }
}

/// Refuse operands of different dimensionality.
pub fn check_dims(a: &[u32], b: &[u32]) -> (r: Result<(), DistanceError>)
    ensures
        r == dims_checked(a@.len(), b@.len(), ()),
{
    if a.len() != b.len() {
        return Err(DistanceError::DimensionMismatch { left: a.len(), right: b.len() });
    }
    Ok(())
}

/// Dot product of two operands the caller knows to be of equal length.
pub fn dot<K: Fn(Kernel, &[u32], &[u32]) -> u32>(kernel: &K, a: &[u32], b: &[u32]) -> (d: u32)
    requires
        kernel_ok(*kernel),
    ensures
        d == kernel_value(*kernel, Kernel::Dot, a@, b@),
{
    run(kernel, Kernel::Dot, a, b)
}

/// Squared Euclidean distance. Ranking needs no square root.
pub fn l2_squared<K: Fn(Kernel, &[u32], &[u32]) -> u32>(kernel: &K, a: &[u32], b: &[u32]) -> (r:
    Result<u32, DistanceError>)
    requires
        kernel_ok(*kernel),
    ensures
        r == dims_checked(
            a@.len(),
            b@.len(),
            kernel_value(*kernel, Kernel::L2Squared, a@, b@),
        ),
{
    check_dims(a, b)?;
    Ok(run(kernel, Kernel::L2Squared, a, b))
}

/// A square-root function answers every question, and always the same way.
pub open spec fn sqrt_ok<F: Fn(u32) -> u32>(sqrt: F) -> bool {
    &&& forall|x: u32| #[trigger] call_requires(sqrt, (x,))
    &&& forall|x: u32, d: u32, e: u32| #[trigger]
        call_ensures(sqrt, (x,), d) && #[trigger] call_ensures(sqrt, (x,), e) ==> d == e
}

/// What `sqrt` answers.
pub open spec fn sqrt_value<F: Fn(u32) -> u32>(sqrt: F, x: u32) -> u32 {
    choose|d: u32| call_ensures(sqrt, (x,), d)
}

/// Euclidean distance: the square root of [`l2_squared`].
pub fn l2_distance<K: Fn(Kernel, &[u32], &[u32]) -> u32, F: Fn(u32) -> u32>(
    kernel: &K,
    sqrt: &F,
    a: &[u32],
    b: &[u32],
) -> (r: Result<u32, DistanceError>)
    requires
        kernel_ok(*kernel),
        sqrt_ok(*sqrt),
    ensures
        r == dims_checked(
            a@.len(),
            b@.len(),
            sqrt_value(*sqrt, kernel_value(*kernel, Kernel::L2Squared, a@, b@)),
        ),
{
    let squared: u32 = l2_squared(kernel, a, b)?;
    let root: u32 = sqrt(squared);
    Ok(root)
}

/// The cosine distance of two equally long operands: undefined, and so a NaN,
/// where the norms come to a zero of either sign.
pub open spec fn cosine_value<K: Fn(Kernel, &[u32], &[u32]) -> u32>(
    kernel: K,
    a: Seq<u32>,
    b: Seq<u32>,
) -> u32 {
    if f32_mag(kernel_value(kernel, Kernel::Norms, a, b)) == 0 {
        F32_NAN
    } else {
        kernel_value(kernel, Kernel::Cosine, a, b)
    }
}

/// Cosine distance, `1 - cosine_similarity`. A stored zero vector is no error:
/// its distance to anything is a NaN.
pub fn cosine_distance<K: Fn(Kernel, &[u32], &[u32]) -> u32>(
    kernel: &K,
    a: &[u32],
    b: &[u32],
) -> (r: Result<u32, DistanceError>)
    requires
        kernel_ok(*kernel),
    ensures
        r == dims_checked(a@.len(), b@.len(), cosine_value(*kernel, a@, b@)),
{
    check_dims(a, b)?;
    let norms: u32 = run(kernel, Kernel::Norms, a, b);
    if norms == 0 || norms == F32_SIGN {
        return Ok(F32_NAN);
    }
    Ok(run(kernel, Kernel::Cosine, a, b))
}

/// Where the norms come to zero, the cosine distance is a NaN, whatever the
/// kernel would have made of the operands.
pub proof fn cosine_without_magnitude_is_nan<K: Fn(Kernel, &[u32], &[u32]) -> u32>(
    kernel: K,
    a: Seq<u32>,
    b: Seq<u32>,
)
    requires
        f32_mag(kernel_value(kernel, Kernel::Norms, a, b)) == 0,
    ensures
        f32_is_nan(cosine_value(kernel, a, b)),
{
}

/// Inner product. Larger means more similar.
pub fn inner_product<K: Fn(Kernel, &[u32], &[u32]) -> u32>(
    kernel: &K,
    a: &[u32],
    b: &[u32],
) -> (r: Result<u32, DistanceError>)
    requires
        kernel_ok(*kernel),
    ensures
        r == dims_checked(a@.len(), b@.len(), kernel_value(*kernel, Kernel::Dot, a@, b@)),
{
    check_dims(a, b)?;
    Ok(dot(kernel, a, b))
}

/// Negated inner product, so that smaller is nearer.
pub fn negative_inner_product<K: Fn(Kernel, &[u32], &[u32]) -> u32>(
    kernel: &K,
    a: &[u32],
    b: &[u32],
) -> (r: Result<u32, DistanceError>)
    requires
        kernel_ok(*kernel),
    ensures
        r == dims_checked(
            a@.len(),
            b@.len(),
            f32_neg(kernel_value(*kernel, Kernel::Dot, a@, b@)),
        ),
{
    let product: u32 = inner_product(kernel, a, b)?;
    Ok(f32_negate(product))
}

} // verus!
