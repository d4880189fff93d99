//! Metric selection and vector validation: the bridge from the distance kernels
//! to the index.
//!
//! Every metric is normalized so that smaller is nearer, which lets the search
//! treat the value uniformly.

use crate::distance::{
    self, cosine_value, dims_checked, kernel_gives, kernel_ok, kernel_value, sqrt_ok, DistanceError,
    Kernel,
};
use crate::floats::{f32_is_nan, f32_lt, f32_neg};
use vstd::prelude::*;

verus! {

/// Distance metric an index is built and queried with.
#[derive(Clone, Copy, Debug, PartialEq, Eq, Structural)]
pub enum Metric {
    /// Euclidean distance, as its square: the order is the same and the root is
    /// saved.
    L2,
    /// Cosine distance, `1 - cosine_similarity`.
    Cosine,
    /// Negative inner product, so larger similarity is a smaller value.
    InnerProduct,
}

/// The distance of two equally long vectors under `metric`.
pub open spec fn metric_distance<K: Fn(Kernel, &[u32], &[u32]) -> u32>(
    kernel: K,
    metric: Metric,
    a: Seq<u32>,
    b: Seq<u32>,
) -> u32 {
    match metric {
        Metric::L2 => kernel_value(kernel, Kernel::L2Squared, a, b),
        Metric::Cosine => cosine_value(kernel, a, b),
        Metric::InnerProduct => f32_neg(kernel_value(kernel, Kernel::Dot, a, b)),
    }
}

/// Two results that count as the same: both undefined, or equal bit for bit.
pub open spec fn same_result(x: u32, y: u32) -> bool {
    (f32_is_nan(x) && f32_is_nan(y)) || x == y
}

/// A kernel does not care which operand comes first.
pub open spec fn symmetric<K: Fn(Kernel, &[u32], &[u32]) -> u32>(kernel: K) -> bool {
    forall|which: Kernel, a: Seq<u32>, b: Seq<u32>|
        a.len() == b.len() ==> same_result(
            #[trigger] kernel_value(kernel, which, a, b),
            kernel_value(kernel, which, b, a),
        )
}

/// With a symmetric kernel, every metric is symmetric; and the Euclidean metric
/// takes no square root.
pub proof fn distances_are_symmetric<K: Fn(Kernel, &[u32], &[u32]) -> u32>(
    kernel: K,
    metric: Metric,
    a: Seq<u32>,
    b: Seq<u32>,
)
    requires
        symmetric(kernel),
        a.len() == b.len(),
    ensures
        same_result(metric_distance(kernel, metric, a, b), metric_distance(kernel, metric, b, a)),
        metric == Metric::L2 ==> metric_distance(kernel, metric, a, b) == kernel_value(
            kernel,
            Kernel::L2Squared,
            a,
            b,
        ),
{
    let x = kernel_value(kernel, Kernel::L2Squared, a, b);
    let n = kernel_value(kernel, Kernel::Norms, a, b);
    let c = kernel_value(kernel, Kernel::Cosine, a, b);
    let d = kernel_value(kernel, Kernel::Dot, a, b);
}

/// A kernel answers no negative square.
pub open spec fn squares_are_not_negative<K: Fn(Kernel, &[u32], &[u32]) -> u32>(
    kernel: K,
) -> bool {
    forall|a: Seq<u32>, b: Seq<u32>|
        a.len() == b.len() ==> not_negative(
            #[trigger] kernel_value(kernel, Kernel::L2Squared, a, b),
        )
}

/// A number is undefined, or not below zero.
pub open spec fn not_negative(x: u32) -> bool {
    !f32_lt(x, 0)
}

/// With a kernel that answers no negative square, no Euclidean distance is
/// negative: neither the squared one nor the metric's.
pub proof fn euclidean_distances_are_not_negative<K: Fn(Kernel, &[u32], &[u32]) -> u32>(
    kernel: K,
    a: Seq<u32>,
    b: Seq<u32>,
)
    requires
        squares_are_not_negative(kernel),
    ensures
        dims_checked(
            a.len(),
            b.len(),
            kernel_value(kernel, Kernel::L2Squared, a, b),
        ) matches Ok(d) ==> not_negative(d),
        dims_checked(
            a.len(),
            b.len(),
            metric_distance(kernel, Metric::L2, a, b),
        ) matches Ok(d) ==> not_negative(d),
{
}

impl Metric {
    /// Distance between two vectors under this metric. Smaller is always nearer.
    pub fn distance<K: Fn(Kernel, &[u32], &[u32]) -> u32>(
        self,
        kernel: &K,
        a: &[u32],
        b: &[u32],
    ) -> (r: Result<u32, DistanceError>)
        requires
            kernel_ok(*kernel),
        ensures
            r == dims_checked(a@.len(), b@.len(), metric_distance(*kernel, self, a@, b@)),
    {
        match self {
            Metric::L2 => distance::l2_squared(kernel, a, b),
            Metric::Cosine => distance::cosine_distance(kernel, a, b),
            Metric::InnerProduct => distance::negative_inner_product(kernel, a, b),
        }
    }

    /// The stored discriminant.
    pub open spec fn spec_code(self) -> u8 {
        match self {
            Metric::L2 => 0,
            Metric::Cosine => 1,
            Metric::InnerProduct => 2,
        }
    }

    /// The metric a stored discriminant means.
    pub open spec fn spec_from_code(code: u8) -> Option<Metric> {
        match code {
            0 => Some(Metric::L2),
            1 => Some(Metric::Cosine),
            2 => Some(Metric::InnerProduct),
            _ => None,
        }
    }

    /// Stable discriminant for serialized indexes. Existing codes are never
    /// renumbered: stored graphs decode through them.
    pub fn code(self) -> (c: u8)
        ensures
            c == self.spec_code(),
    {
        match self {
            Metric::L2 => 0,
            Metric::Cosine => 1,
            Metric::InnerProduct => 2,
        }
    }

    /// Inverse of [`Metric::code`]; `None` for an unknown discriminant.
    pub fn from_code(code: u8) -> (r: Option<Metric>)
        ensures
            r == Self::spec_from_code(code),
    {
        match code {
            0 => Some(Metric::L2),
            1 => Some(Metric::Cosine),
            2 => Some(Metric::InnerProduct),
            _ => None,
        }
    }
}

/// A metric's code leads back to the metric.
pub proof fn metric_code_round_trip(metric: Metric)
    ensures
        Metric::spec_from_code(metric.spec_code()) == Some(metric),
{
}

/// A code that decodes is the code of what it decodes to; every other code is
/// refused.
pub proof fn metric_codes_are_exact(code: u8)
    ensures
        Metric::spec_from_code(code) is Some <==> code <= 2,
        Metric::spec_from_code(code) matches Some(metric) ==> metric.spec_code() == code,
{
}

/// Check that `v` has the expected dimensionality.
pub fn validate_dim(v: &[u32], expected: usize) -> (r: Result<(), DistanceError>)
    ensures
        r == dims_checked(expected as nat, v@.len(), ()),
{
    if v.len() != expected {
        return Err(DistanceError::DimensionMismatch { left: expected, right: v.len() });
    }
    Ok(())
}

/// A metric is its reduction, called on the operands as they stand: the sum of
/// squares for Euclidean distance, the dot product with its sign flipped for the
/// inner product, and for cosine the cosine reduction, or a NaN where the norms
/// come to a zero of either sign. The length and content of the operands make no
/// other difference.
pub proof fn metrics_are_their_reductions<K: Fn(Kernel, &[u32], &[u32]) -> u32>(
    kernel: K,
    a: &[u32],
    b: &[u32],
    which: Kernel,
    d: u32,
    norms: u32,
)
    requires
        kernel_ok(kernel),
        call_ensures(kernel, (which, a, b), d),
        call_ensures(kernel, (Kernel::Norms, a, b), norms),
    ensures
        which == Kernel::L2Squared ==> metric_distance(kernel, Metric::L2, a@, b@) == d,
        which == Kernel::Dot ==> metric_distance(kernel, Metric::InnerProduct, a@, b@) == (if d
            >= 0x8000_0000 {
            d - 0x8000_0000
        } else {
            d + 0x8000_0000
        }),
        which == Kernel::Cosine && norms != 0 && norms != 0x8000_0000 ==> metric_distance(
            kernel,
            Metric::Cosine,
            a@,
            b@,
        ) == d,
        norms == 0 || norms == 0x8000_0000 ==> f32_is_nan(
            metric_distance(kernel, Metric::Cosine, a@, b@),
        ),
{
    lemma_kernel_unique(kernel, which, a, b, d);
    lemma_kernel_unique(kernel, Kernel::Norms, a, b, norms);
}

/// A kernel's answer is the one answer it gives.
proof fn lemma_kernel_unique<K: Fn(Kernel, &[u32], &[u32]) -> u32>(
    kernel: K,
    which: Kernel,
    a: &[u32],
    b: &[u32],
    d: u32,
)
    requires
        kernel_ok(kernel),
        call_ensures(kernel, (which, a, b), d),
    ensures
        kernel_value(kernel, which, a@, b@) == d,
{
    let e = kernel_value(kernel, which, a@, b@);
    assert(kernel_gives(kernel, which, a@, b@, d));
    let (x, y) = choose|x: &[u32], y: &[u32]|
        x@ == a@ && y@ == b@ && #[trigger] call_ensures(kernel, (which, x, y), e);
    assert(x =~= a);
    assert(y =~= b);
}

/// Operands meet a reduction exactly when they are equally long; otherwise both
/// lengths are named, the left one first.
pub proof fn unequal_operands_are_refused(left: nat, right: nat, d: u32)
    requires
        left <= usize::MAX,
        right <= usize::MAX,
    ensures
        dims_checked(left, right, d) == Ok::<u32, DistanceError>(d) <==> left == right,
        left != right ==> exists|e: DistanceError|
            dims_checked(left, right, d) == Err::<u32, DistanceError>(e) && e == (
            DistanceError::DimensionMismatch { left: left as usize, right: right as usize }),
{
}

/// Distances between operands of equal length are what the reduction comes to:
/// for Euclidean distance the root of the sum of squares, for the inner product the
/// dot product, and for its negation the same with the sign flipped.
pub proof fn distances_are_their_reductions<
    K: Fn(Kernel, &[u32], &[u32]) -> u32,
    F: Fn(u32) -> u32,
>(
    kernel: K,
    sqrt: F,
    a: &[u32],
    b: &[u32],
    squares: u32,
    root: u32,
    product: u32,
    length: Result<u32, DistanceError>,
    inner: Result<u32, DistanceError>,
    negative: Result<u32, DistanceError>,
)
    requires
        kernel_ok(kernel),
        sqrt_ok(sqrt),
        a@.len() == b@.len(),
        call_ensures(kernel, (Kernel::L2Squared, a, b), squares),
        call_ensures(sqrt, (squares,), root),
        call_ensures(kernel, (Kernel::Dot, a, b), product),
        call_ensures(distance::l2_distance::<K, F>, (&kernel, &sqrt, a, b), length),
        call_ensures(distance::inner_product::<K>, (&kernel, a, b), inner),
        call_ensures(distance::negative_inner_product::<K>, (&kernel, a, b), negative),
    ensures
        length == Ok::<u32, DistanceError>(root),
        inner == Ok::<u32, DistanceError>(product),
        negative matches Ok(d) && d != product && (d == product + 0x8000_0000 || product == d
            + 0x8000_0000),
{
    lemma_kernel_unique(kernel, Kernel::L2Squared, a, b, squares);
    lemma_kernel_unique(kernel, Kernel::Dot, a, b, product);
}

} // verus!
