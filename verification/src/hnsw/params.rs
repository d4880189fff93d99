//! Build parameters, the degree caps derived from them, and index errors.

use crate::distance::DistanceError;
use crate::floats::{
    f32_is_finite, f32_less, f32_lt, lemma_f32_value_order, lemma_round_bound, lemma_round_small,
    round_significant, round_to_significand, F32_INFINITY, F32_ONE, F32_SIGN,
};
use crate::text::{decimal, push_decimal};
use crate::vector::Metric;
use vstd::arithmetic::power2::pow2;
use vstd::prelude::*;

verus! {

/// Errors from index operations.
#[derive(Debug, Clone, Copy, PartialEq, Eq, Structural)]
pub enum HnswError {
    /// A vector's length didn't match the index dimensionality.
    DimensionMismatch { expected: usize, got: usize },
    /// An empty vector was supplied.
    EmptyVector,
    /// An operation referenced a node id that doesn't exist.
    UnknownNode { id: usize },
    /// The graph is full: node ids are 32-bit, so it cannot grow further.
    NodeLimitReached { limit: usize },
    /// A vector had more components than a graph can carry.
    DimensionTooLarge { got: usize, max: usize },
}

impl HnswError {
    /// The text a user sees.
    pub open spec fn text(self) -> Seq<char> {
        match self {
            HnswError::DimensionMismatch { expected, got } =>
                "vector dimension mismatch: expected "@ + decimal(expected as nat) + ", got "@
                + decimal(got as nat),
            HnswError::EmptyVector => "vector must not be empty"@,
            HnswError::UnknownNode { id } => "unknown node id: "@ + decimal(id as nat),
            HnswError::NodeLimitReached { limit } => "graph is full: "@ + decimal(limit as nat)
                + " nodes is the ceiling for 32-bit ids"@,
            HnswError::DimensionTooLarge { got, max } => "vector has "@ + decimal(got as nat)
                + " dimensions, the maximum is "@ + decimal(max as nat),
        }
    }

    /// The text a user sees.
    pub fn message(&self) -> (s: String)
        ensures
            s@ == self.text(),
    {
        let mut s = String::new();
        match self {
            HnswError::DimensionMismatch { expected, got } => {
                s.append("vector dimension mismatch: expected ");
                push_decimal(&mut s, *expected as u64);
                s.append(", got ");
                push_decimal(&mut s, *got as u64);
            },
            HnswError::EmptyVector => {
                s.append("vector must not be empty");
            },
            HnswError::UnknownNode { id } => {
                s.append("unknown node id: ");
                push_decimal(&mut s, *id as u64);
            },
            HnswError::NodeLimitReached { limit } => {
                s.append("graph is full: ");
                push_decimal(&mut s, *limit as u64);
                s.append(" nodes is the ceiling for 32-bit ids");
            },
            HnswError::DimensionTooLarge { got, max } => {
                s.append("vector has ");
                push_decimal(&mut s, *got as u64);
                s.append(" dimensions, the maximum is ");
                push_decimal(&mut s, *max as u64);
            },
        }
        assert(s@ =~= self.text());
        s
    }
}

impl From<DistanceError> for HnswError {
    fn from(e: DistanceError) -> (r: Self) {
        match e {
            DistanceError::DimensionMismatch { left, right } => HnswError::DimensionMismatch {
                expected: left,
                got: right,
            },
        }
    }
}

impl vstd::std_specs::convert::FromSpecImpl<DistanceError> for HnswError {
    open spec fn obeys_from_spec() -> bool {
        true
    }

    open spec fn from_spec(e: DistanceError) -> Self {
        match e {
            DistanceError::DimensionMismatch { left, right } => HnswError::DimensionMismatch {
                expected: left,
                got: right,
            },
        }
    }
}

/// Build parameters.
#[derive(Debug, Clone, Copy)]
pub struct HnswParams {
    /// Neighbors per node on upper layers before density scaling. Layer 0 uses
    /// twice as many; [`HnswParams::gamma`] multiplies both caps.
    pub m: usize,
    /// Candidate-pool size during build.
    pub ef_construction: usize,
    /// Edge-density multiplier, as the bits of an `f32`. `1.0` builds a standard
    /// HNSW; non-finite values count as 1, finite values clamp to
    /// `[1, MAX_GAMMA]`.
    pub gamma: u32,
    /// Distance metric.
    pub metric: Metric,
    /// PRNG seed for reproducible level assignment.
    pub seed: u64,
}

impl HnswParams {
    /// Upper bound for [`HnswParams::gamma`]: the bits of `1024.0`.
    pub const MAX_GAMMA: u32 = 0x4480_0000;

    /// Largest `m` a stored graph may declare.
    pub const MAX_M: usize = 128;

    /// Ceiling on the layer-0 degree cap of a stored graph. It is the product of
    /// `m` and the density that sizes link storage, so bounding each alone would
    /// not bound it.
    pub const MAX_LAYER0_DEGREE: usize = 2048;

    /// Largest dimensionality a graph may hold.
    pub const MAX_DIM: usize = 16_000;

    /// Ceiling on a stored graph's top layer.
    pub const MAX_LAYER: usize = 64;
}

/// The seed used when none is given. A zero seed would freeze the generator.
pub const DEFAULT_SEED: u64 = 0x9E37_79B9_7F4A_7C15;

impl Default for HnswParams {
    fn default() -> (r: Self)
        ensures
            r.m == 16,
            r.ef_construction == 64,
            r.gamma == F32_ONE,
            r.metric == Metric::L2,
            r.seed == DEFAULT_SEED,
    {
        HnswParams {
            m: 16,
            ef_construction: 64,
            gamma: F32_ONE,
            metric: Metric::L2,
            seed: DEFAULT_SEED,
        }
    }
}

/// The density in effect: non-finite counts as 1, finite values clamp to
/// `[1, MAX_GAMMA]`.
pub open spec fn effective_gamma(gamma: u32) -> u32 {
    if !f32_is_finite(gamma) || f32_lt(gamma, F32_ONE) {
        F32_ONE
    } else if f32_lt(HnswParams::MAX_GAMMA, gamma) {
        HnswParams::MAX_GAMMA
    } else {
        gamma
    }
}

/// A density is within bounds exactly when its bits lie between those of the
/// bounds.
pub open spec fn gamma_in_range(gamma: u32) -> bool {
    F32_ONE <= gamma <= HnswParams::MAX_GAMMA
}

/// Two to the significand width of an `f32`.
pub const F32_SIGNIFICAND: u128 = 0x100_0000;

/// How many binary places the significand of a density in range carries.
pub open spec fn gamma_places(gamma: u32) -> nat {
    (150 - gamma / 0x80_0000) as nat
}

/// The significand of a density in range.
pub open spec fn gamma_significand(gamma: u32) -> nat {
    (0x80_0000 + gamma % 0x80_0000) as nat
}

/// `base * gamma` in single precision, in units of the last place of `gamma`:
/// `base` is rounded to a single, and so is the product.
pub open spec fn scaled_degree(base: nat, gamma: u32) -> nat {
    round_significant(
        round_significant(base, 0x100_0000) * gamma_significand(gamma),
        0x100_0000,
    )
}

/// The degree cap for `base` neighbors at density `gamma`: the single-precision
/// product rounded to the nearest integer, halves up, at most `usize::MAX`.
pub open spec fn degree_cap(base: nat, gamma: u32) -> nat {
    let places = gamma_places(gamma);
    let cap = (scaled_degree(base, gamma) + pow2((places - 1) as nat)) / pow2(places);
    if cap > usize::MAX {
        usize::MAX as nat
    } else {
        cap
    }
}

/// The smallest candidate pool a build may use. A densified layer-0 list only
/// fills when the pool supplies that many candidates.
pub open spec fn ef_floor(m: nat, gamma: u32) -> nat {
    if gamma > F32_ONE {
        degree_cap(2 * m, gamma)
    } else {
        m
    }
}

/// Clamp a requested density.
pub fn clamp_gamma(gamma: u32) -> (r: u32)
    ensures
        r == effective_gamma(gamma),
        gamma_in_range(r),
{
    proof {
        lemma_f32_value_order(gamma, F32_ONE);
        lemma_f32_value_order(HnswParams::MAX_GAMMA, gamma);
    }
    let mag: u32 = if gamma >= F32_SIGN { gamma - F32_SIGN } else { gamma };
    if mag >= F32_INFINITY || f32_less(gamma, F32_ONE) {
        F32_ONE
    } else if f32_less(HnswParams::MAX_GAMMA, gamma) {
        HnswParams::MAX_GAMMA
    } else {
        gamma
    }
}

/// A density within bounds is in effect as it is, and only such a density is.
pub proof fn clamping_keeps_what_is_in_range(gamma: u32)
    ensures
        gamma_in_range(effective_gamma(gamma)),
        effective_gamma(gamma) == gamma <==> gamma_in_range(gamma),
{
    lemma_f32_value_order(gamma, F32_ONE);
    lemma_f32_value_order(HnswParams::MAX_GAMMA, gamma);
}

/// Without densification the caps are the base degrees themselves, as long as a
/// single can count that far.
pub proof fn unit_gamma_keeps_the_degree(base: nat)
    requires
        base < 0x100_0000,
        base <= usize::MAX,
    ensures
        degree_cap(base, F32_ONE) == base,
{
    lemma_round_small(base, 0x100_0000);
    assert(gamma_places(F32_ONE) == 23 && gamma_significand(F32_ONE) == 0x80_0000);
    lemma_ulp_shifted(base, 23, 0x100_0000);
    vstd::arithmetic::power2::lemma2_to64();
    assert(scaled_degree(base, F32_ONE) == base * 0x80_0000);
    assert((base * 0x80_0000 + 0x40_0000) / 0x80_0000 == base);
}

/// The unit of `x` divides it.
spec fn ulp_divides(x: nat, limit: nat) -> bool {
    x % crate::floats::ulp(x, limit) == 0
}

/// A number that fits the significand still does after a shift.
proof fn lemma_ulp_shifted(x: nat, k: nat, limit: nat)
    requires
        x < limit,
        limit >= 2,
    ensures
        ulp_divides(x * pow2(k), limit),
        round_significant(x * pow2(k), limit) == x * pow2(k),
    decreases k,
{
    let y = x * pow2(k);
    let u = crate::floats::ulp(y, limit);
    if y < limit {
        lemma_round_small(y, limit);
        assert(y % 1 == 0) by (nonlinear_arith);
    } else {
        if k == 0 {
            vstd::arithmetic::power2::lemma2_to64();
            assert(y == x) by (nonlinear_arith)
                requires
                    y == x * pow2(0),
                    pow2(0) == 1,
            ;
        } else {
            let h = x * pow2((k - 1) as nat);
            vstd::arithmetic::power2::lemma_pow2_unfold(k);
            assert(y == 2 * h) by (nonlinear_arith)
                requires
                    y == x * pow2(k),
                    h == x * pow2((k - 1) as nat),
                    pow2(k) == 2 * pow2((k - 1) as nat),
            ;
            lemma_ulp_shifted(x, (k - 1) as nat, limit);
            lemma_round_bound(h, limit);
            let v = crate::floats::ulp(h, limit);
            assert(u == 2 * v);
            assert(y % u == 0 && y / u * u == y) by (nonlinear_arith)
                requires
                    y == 2 * h,
                    u == 2 * v,
                    v >= 1,
                    h % v == 0,
            {
                let q = h / v;
                assert(h == q * v);
                assert(y == q * u);
                vstd::arithmetic::div_mod::lemma_mod_multiples_basic(q as int, u as int);
                vstd::arithmetic::div_mod::lemma_div_multiples_vanish(q as int, u as int);
            }
        }
    }
}

/// A degree cap stays within a constant factor of its base degree.
pub proof fn lemma_degree_cap_bound(base: nat, gamma: u32)
    requires
        gamma_in_range(gamma),
    ensures
        degree_cap(base, gamma) <= 0x2000 * base + 1,
{
    let s = gamma_significand(gamma);
    let single = round_significant(base, 0x100_0000);
    lemma_round_bound(base, 0x100_0000);
    lemma_round_bound(single * s, 0x100_0000);
    let x = scaled_degree(base, gamma);
    assert(x <= 0x400_0000 * base) by (nonlinear_arith)
        requires
            x <= 2 * (single * s),
            single <= 2 * base,
            s < 0x100_0000,
    ;
    let places = gamma_places(gamma);
    assert(13 <= places <= 23);
    vstd::arithmetic::power2::lemma2_to64();
    let p = pow2(places);
    if places > 13 {
        vstd::arithmetic::power2::lemma_pow2_strictly_increases(13, places);
    }
    vstd::arithmetic::power2::lemma_pow2_unfold(places);
    let half = pow2((places - 1) as nat);
    let cap = (x + half) / p;
    assert(cap * p <= x + half) by (nonlinear_arith)
        requires
            cap == (x + half) / p,
            p > 0,
    ;
    assert(cap <= 0x2000 * base + 1) by (nonlinear_arith)
        requires
            cap * p <= x + half,
            x <= 0x400_0000 * base,
            p >= 0x2000,
            p == 2 * half,
    ;
}

/// Scale `base` neighbors by the density.
pub fn scale_degree(base: usize, gamma: u32) -> (r: usize)
    requires
        gamma_in_range(gamma),
    ensures
        r == degree_cap(base as nat, gamma),
{
    let significand: u128 = 0x80_0000 + (gamma % 0x80_0000) as u128;
    let places: u32 = 150 - gamma / 0x80_0000;
    let single: u128 = round_to_significand(base as u128, F32_SIGNIFICAND);
    proof {
        lemma_round_bound(base as nat, 0x100_0000);
        assert(single * significand < 0x1_0000_0000_0000_0000_0000_0000_0000u128)
            by (nonlinear_arith)
            requires
                single <= 2 * base,
                base < 0x1_0000_0000_0000_0000,
                significand < 0x100_0000,
                significand >= 0,
        ;
    }
    let product: u128 = round_to_significand(single * significand, F32_SIGNIFICAND);
    proof {
        lemma_round_bound((single * significand) as nat, 0x100_0000);
    }
    let mut unit: u128 = 1;
    let mut i: u32 = 0;
    proof {
        vstd::arithmetic::power2::lemma2_to64();
    }
    while i < places
        invariant
            i <= places <= 23,
            unit == pow2(i as nat),
            unit <= 0x80_0000,
        decreases places - i,
    {
        proof {
            vstd::arithmetic::power2::lemma_pow2_unfold((i + 1) as nat);
            vstd::arithmetic::power2::lemma2_to64();
            if i + 1 < 23 {
                vstd::arithmetic::power2::lemma_pow2_strictly_increases((i + 1) as nat, 23);
            }
        }
        unit = unit * 2;
        i += 1;
    }
    proof {
        vstd::arithmetic::power2::lemma_pow2_unfold(places as nat);
    }
    let cap: u128 = (product + unit / 2) / unit;
    if cap > usize::MAX as u128 {
        usize::MAX
    } else {
        cap as usize
    }
}

/// The density, both degree caps and the pool floor that `m` and a requested
/// density lead to: `(gamma, m_cap, m0_cap, ef_floor)`. Construction and
/// decoding share this one derivation.
pub fn derived_params(m: usize, gamma: u32) -> (r: (u32, usize, usize, usize))
    requires
        m <= usize::MAX / 2,
    ensures
        r.0 == effective_gamma(gamma),
        gamma_in_range(r.0),
        r.1 == degree_cap(m as nat, r.0),
        r.2 == degree_cap((2 * m) as nat, r.0),
        r.3 == ef_floor(m as nat, r.0),
{
    let gamma: u32 = clamp_gamma(gamma);
    let m_cap: usize = scale_degree(m, gamma);
    let m0_cap: usize = scale_degree(m * 2, gamma);
    let floor: usize = if gamma > F32_ONE { m0_cap } else { m };
    (gamma, m_cap, m0_cap, floor)
}

/// Rounding is off by no more than half a unit, and the unit is at most a
/// fraction of the number.
pub(crate) proof fn lemma_round_error(x: nat, limit: nat)
    requires
        limit >= 2,
    ensures
        2 * round_significant(x, limit) <= 2 * x + crate::floats::ulp(x, limit),
        2 * x <= 2 * round_significant(x, limit) + crate::floats::ulp(x, limit),
        x >= limit ==> crate::floats::ulp(x, limit) * limit <= 2 * x,
        x < limit ==> round_significant(x, limit) == x,
    decreases x,
{
    let u = crate::floats::ulp(x, limit);
    lemma_round_bound(x, limit);
    let q = x / u;
    let r = x % u;
    assert(q * u + r == x && 0 <= r < u) by (nonlinear_arith)
        requires
            u >= 1,
            q == x / u,
            r == x % u,
    ;
    assert((q + 1) * u == q * u + u) by (nonlinear_arith);
    if x >= limit {
        let half = x / 2;
        let v = crate::floats::ulp(half, limit);
        lemma_round_error(half, limit);
        assert(u == 2 * v);
        if half < limit {
            assert(v == 1);
            assert(u * limit <= 2 * x) by (nonlinear_arith)
                requires
                    u == 2,
                    limit <= x,
            ;
        } else {
            assert(u * limit <= 2 * x) by (nonlinear_arith)
                requires
                    u == 2 * v,
                    v * limit <= 2 * half,
                    2 * half <= x,
            ;
        }
    } else {
        lemma_round_small(x, limit);
    }
}

/// A degree does not vanish by being scaled.
pub proof fn degrees_do_not_vanish(base: nat, gamma: u32)
    requires
        base >= 1,
        gamma_in_range(gamma),
    ensures
        degree_cap(base, gamma) >= 1,
{
    let s = gamma_significand(gamma);
    let single = round_significant(base, 0x100_0000);
    lemma_round_error(base, 0x100_0000);
    lemma_round_bound(base, 0x100_0000);
    assert(single >= 1);
    let p = single * s;
    assert(p >= 0x80_0000) by (nonlinear_arith)
        requires
            p == single * s,
            single >= 1,
            s >= 0x80_0000,
    ;
    lemma_round_error(p, 0x100_0000);
    lemma_round_bound(p, 0x100_0000);
    let x = scaled_degree(base, gamma);
    assert(2 * x >= p);
    let places = gamma_places(gamma);
    assert(13 <= places <= 23);
    vstd::arithmetic::power2::lemma2_to64();
    if places < 23 {
        vstd::arithmetic::power2::lemma_pow2_strictly_increases(places, 23);
    }
    vstd::arithmetic::power2::lemma_pow2_unfold(places);
    let unit = pow2(places);
    let half = pow2((places - 1) as nat);
    assert(x + half >= unit);
    assert((x + half) / unit >= 1) by (nonlinear_arith)
        requires
            x + half >= unit,
            unit >= 1,
    ;
}

/// A degree cap is the product of degree and density, rounded to a whole number:
/// it is off by at most one half, and by the one part in 2 to the 24th that single
/// precision loses. The density is its significand over two to its places.
pub proof fn caps_are_rounded_products(base: nat, gamma: u32, significand: nat, unit: nat)
    requires
        base <= 0x4_0000,
        0x3f80_0000 <= gamma <= 0x4480_0000,
        significand == 0x80_0000 + gamma % 0x80_0000,
        unit == pow2((150 - gamma / 0x80_0000) as nat),
    ensures
        ({
            let off = degree_cap(base, gamma) * unit - base * significand;
            let most = unit * 0x80_0000 + base * significand;
            -most <= off * 0x100_0000 <= most
        }),
{
    let p = base * significand;
    lemma_round_small(base, 0x100_0000);
    lemma_round_error(p, 0x100_0000);
    let x = scaled_degree(base, gamma);
    assert(x == round_significant(p, 0x100_0000));
    let u = crate::floats::ulp(p, 0x100_0000);
    assert(p >= 0x100_0000 ==> u * 0x80_0000 <= p) by (nonlinear_arith)
        requires
            p >= 0x100_0000 ==> u * 0x100_0000 <= 2 * p,
    ;
    let places = gamma_places(gamma);
    assert(13 <= places <= 23);
    vstd::arithmetic::power2::lemma2_to64();
    vstd::arithmetic::power2::lemma_pow2_unfold(places);
    if places > 13 {
        vstd::arithmetic::power2::lemma_pow2_strictly_increases(13, places);
    }
    let half = pow2((places - 1) as nat);
    assert(unit == 2 * half);
    lemma_degree_cap_bound(base, gamma);
    let cap = (x + half) / unit;
    assert(cap * unit <= x + half && x + half < cap * unit + unit) by (nonlinear_arith)
        requires
            cap == (x + half) / unit,
            unit > 0,
    ;
    assert(cap <= usize::MAX) by {
        assert(x <= 0x200_0000 * base) by (nonlinear_arith)
            requires
                x <= 2 * p,
                p == base * significand,
                significand < 0x100_0000,
        ;
        lemma_round_bound(p, 0x100_0000);
        assert(cap * 0x2000 <= 0x200_0000 * 0x4_0000 + half) by (nonlinear_arith)
            requires
                cap * unit <= x + half,
                unit >= 0x2000,
                x <= 0x200_0000 * base,
                base <= 0x4_0000,
        ;
        assert(half <= 0x40_0000) by {
            if places < 23 {
                vstd::arithmetic::power2::lemma_pow2_strictly_increases(
                    (places - 1) as nat,
                    22,
                );
            }
        }
    }
    assert(degree_cap(base, gamma) == cap);
    let off = cap * unit - p;
    assert(-half <= cap * unit - x <= half);
    assert(2 * x <= 2 * p + u && 2 * p <= 2 * x + u);
    if p < 0x100_0000 {
        assert(x == p);
    }
    assert(2 * off <= 2 * half + u && -2 * half - u <= 2 * off);
}

/// The density in effect, by its bits: a number from 1 to 1024 is kept, a larger
/// one counts as 1024, and anything else as 1.
pub proof fn densities_in_effect(gamma: u32)
    ensures
        effective_gamma(gamma) == (if 0x3f80_0000 <= gamma <= 0x4480_0000 {
            gamma
        } else if 0x4480_0000 < gamma < 0x7f80_0000 {
            0x4480_0000
        } else {
            0x3f80_0000
        }),
{
    lemma_f32_value_order(gamma, F32_ONE);
    lemma_f32_value_order(HnswParams::MAX_GAMMA, gamma);
}

} // verus!
