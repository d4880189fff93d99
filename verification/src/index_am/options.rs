//! Per-index build options: the `WITH (...)` clause.
//!
//! The parsed values only ever reach a build: a graph serializes the parameters
//! it was built with, so changing an option changes nothing until a rebuild.

use crate::floats::{lemma_round_bound, round_significant, round_to_significand, F32_ONE};
use crate::hnsw::params::{lemma_round_error, HnswParams, DEFAULT_SEED};
use crate::text::{decimal, push_decimal, push_signed_decimal, signed_decimal};
use crate::vector::Metric;
use vstd::arithmetic::power2::pow2;
use vstd::prelude::*;

verus! {

/// A smaller base degree cannot form a navigable graph.
pub const MIN_M: i32 = 2;

/// Well past the useful range; what caps allocation is [`MAX_LAYER0_DEGREE`].
pub const MAX_M: i32 = 128;

/// Ceiling on the layer-0 degree `2 * m * gamma`. The two options are bounded
/// each for itself, but it is their product that sizes every neighbor list.
pub const MAX_LAYER0_DEGREE: u64 = 2048;

/// The build pool must hold a handful of candidates to choose from.
pub const MIN_EF_CONSTRUCTION: i32 = 4;

pub const MAX_EF_CONSTRUCTION: i32 = 1000;

/// Bits of `1.0f64`, the smallest density.
pub const MIN_GAMMA: u64 = 0x3ff0_0000_0000_0000;

/// Bits of `1024.0f64`, the largest density.
pub const MAX_GAMMA: u64 = 0x4090_0000_0000_0000;

/// The parsed `WITH (...)` clause. The density is `f64` bits.
#[derive(Debug, Clone, Copy)]
pub struct BrindleOptions {
    pub m: i32,
    pub ef_construction: i32,
    pub gamma: u64,
}

impl BrindleOptions {
    /// Each option is within its own range.
    pub open spec fn in_range(self) -> bool {
        &&& MIN_M <= self.m <= MAX_M
        &&& MIN_EF_CONSTRUCTION <= self.ef_construction <= MAX_EF_CONSTRUCTION
        &&& MIN_GAMMA <= self.gamma <= MAX_GAMMA
    }

    /// Whether each option is within its own range.
    pub fn check_ranges(&self) -> (r: bool)
        ensures
            r == self.in_range(),
    {
        MIN_M <= self.m && self.m <= MAX_M && MIN_EF_CONSTRUCTION <= self.ef_construction
            && self.ef_construction <= MAX_EF_CONSTRUCTION && MIN_GAMMA <= self.gamma && self.gamma
            <= MAX_GAMMA
    }
}

/// Two to the significand width of an `f64`.
pub const F64_SIGNIFICAND: u128 = 0x20_0000_0000_0000;

/// The significand of a density in range.
pub open spec fn significand(gamma: u64) -> nat {
    (0x10_0000_0000_0000 + gamma % 0x10_0000_0000_0000) as nat
}

/// How many binary places that significand carries.
pub open spec fn places(gamma: u64) -> nat {
    (1075 - gamma / 0x10_0000_0000_0000) as nat
}

/// `2 * m * gamma` in double precision, in units of the last place of `gamma`.
pub open spec fn layer0_degree(m: int, gamma: u64) -> nat {
    round_significant((2 * m) as nat * significand(gamma), 0x20_0000_0000_0000)
}

/// `m` and the density together ask for more neighbors per node than a build
/// survives. Carries the whole neighbors asked for.
#[derive(Debug, Clone, Copy, PartialEq, Eq, Structural)]
pub struct ExcessiveDegree {
    pub m: i32,
    pub degree: u64,
}

impl ExcessiveDegree {
    /// The text a user sees, given how the density prints.
    pub open spec fn text(self, gamma: Seq<char>) -> Seq<char> {
        "m = "@ + signed_decimal(self.m as int) + " with gamma = "@ + gamma
            + " would give each node up to "@ + decimal(self.degree as nat) + " neighbors"@
    }

    /// The text a user sees, given how the density prints.
    pub fn message(&self, gamma: &str) -> (s: String)
        ensures
            s@ == self.text(gamma@),
    {
        let mut s = String::new();
        s.append("m = ");
        push_signed_decimal(&mut s, self.m);
        s.append(" with gamma = ");
        s.append(gamma);
        s.append(" would give each node up to ");
        push_decimal(&mut s, self.degree);
        s.append(" neighbors");
        assert(s@ =~= self.text(gamma@));
        s
    }

    /// The limit, for the user.
    pub fn detail(&self) -> (s: String)
        ensures
            s@ == "The layer-0 degree cap 2 * m * gamma must not exceed "@ + decimal(
                MAX_LAYER0_DEGREE as nat,
            ) + "."@,
    {
        let mut s = String::new();
        s.append("The layer-0 degree cap 2 * m * gamma must not exceed ");
        push_decimal(&mut s, MAX_LAYER0_DEGREE);
        s.append(".");
        assert(s@ =~= "The layer-0 degree cap 2 * m * gamma must not exceed "@ + decimal(
            MAX_LAYER0_DEGREE as nat,
        ) + "."@);
        s
    }
}

/// Two to the binary places of a density in range.
fn place_unit(gamma: u64) -> (r: u128)
    requires
        MIN_GAMMA <= gamma <= MAX_GAMMA,
    ensures
        r == pow2(places(gamma)),
        0x400_0000_0000 <= r <= 0x10_0000_0000_0000,
{
    let n: u64 = 1075 - gamma / 0x10_0000_0000_0000;
    let mut unit: u128 = 0x400_0000_0000;
    let mut i: u64 = 42;
    proof {
        vstd::arithmetic::power2::lemma2_to64_rest();
    }
    while i < n
        invariant
            42 <= i <= n <= 52,
            unit == pow2(i as nat),
            0x400_0000_0000 <= unit <= 0x10_0000_0000_0000,
        decreases n - i,
    {
        proof {
            vstd::arithmetic::power2::lemma2_to64_rest();
            vstd::arithmetic::power2::lemma_pow2_unfold((i + 1) as nat);
            if i + 1 < 52 {
                vstd::arithmetic::power2::lemma_pow2_strictly_increases((i + 1) as nat, 52);
            }
        }
        unit = unit * 2;
        i += 1;
    }
    unit
}

/// Refuse options that together ask for too many neighbors per node.
pub fn reject_excessive_degree(options: &BrindleOptions) -> (r: Result<(), ExcessiveDegree>)
    requires
        options.in_range(),
    ensures
        ({
            let degree = layer0_degree(options.m as int, options.gamma);
            let unit = pow2(places(options.gamma));
            r == (if degree > MAX_LAYER0_DEGREE * unit {
                Err(ExcessiveDegree { m: options.m, degree: (degree / unit) as u64 })
            } else {
                Ok(())
            })
        }),
{
    let gamma: u64 = options.gamma;
    let unit: u128 = place_unit(gamma);
    let sig: u128 = 0x10_0000_0000_0000 + (gamma % 0x10_0000_0000_0000) as u128;
    let twice: u128 = (2 * options.m) as u128;
    proof {
        assert(twice * sig <= 256 * 0x20_0000_0000_0000) by (nonlinear_arith)
            requires
                twice <= 256,
                sig <= 0x20_0000_0000_0000,
        ;
        lemma_round_bound((twice * sig) as nat, 0x20_0000_0000_0000);
    }
    let degree: u128 = round_to_significand(twice * sig, F64_SIGNIFICAND);
    if degree > MAX_LAYER0_DEGREE as u128 * unit {
        proof {
            assert(degree / unit <= 0x10_0000) by (nonlinear_arith)
                requires
                    degree <= 2 * 256 * 0x20_0000_0000_0000,
                    unit >= 0x400_0000_0000,
            ;
        }
        return Err(ExcessiveDegree { m: options.m, degree: (degree / unit) as u64 });
    }
    Ok(())
}

/// A density in range, rounded to single precision.
pub open spec fn single_gamma(gamma: u64) -> u32 {
    ((gamma / 0x10_0000_0000_0000 - 896) * 0x80_0000 + round_significant(
        significand(gamma),
        0x100_0000,
    ) / 0x2000_0000 - 0x80_0000) as u32
}

/// Round a density in range to single precision.
fn to_single(gamma: u64) -> (r: u32)
    requires
        MIN_GAMMA <= gamma <= MAX_GAMMA,
    ensures
        r == single_gamma(gamma),
{
    let sig: u128 = 0x10_0000_0000_0000 + (gamma % 0x10_0000_0000_0000) as u128;
    proof {
        lemma_round_bound(sig as nat, 0x100_0000);
        lemma_round_at_least(sig as nat);
    }
    let rounded: u128 = round_to_significand(sig, 0x100_0000);
    let e: u64 = gamma / 0x10_0000_0000_0000;
    let fraction: u64 = (rounded / 0x2000_0000) as u64 - 0x80_0000;
    ((e - 896) * 0x80_0000 + fraction) as u32
}

/// A full double significand rounds to at least a full single one.
proof fn lemma_round_at_least(sig: nat)
    requires
        0x10_0000_0000_0000 <= sig < 0x20_0000_0000_0000,
    ensures
        crate::floats::ulp(sig, 0x100_0000) == 0x2000_0000,
        0x10_0000_0000_0000 <= round_significant(sig, 0x100_0000) <= 0x20_0000_0000_0000,
{
    vstd::arithmetic::power2::lemma2_to64();
    lemma_ulp_steps(sig, 29);
    let u: nat = 0x2000_0000;
    let q = sig / u;
    assert(0x80_0000 <= q < 0x100_0000);
}

/// Halving `k` times brings a number below the limit, and not before.
proof fn lemma_ulp_steps(x: nat, k: nat)
    requires
        0x80_0000 * pow2(k) <= x < 0x100_0000 * pow2(k),
        k <= 29,
    ensures
        crate::floats::ulp(x, 0x100_0000) == pow2(k),
    decreases k,
{
    vstd::arithmetic::power2::lemma2_to64();
    if k > 0 {
        vstd::arithmetic::power2::lemma_pow2_unfold(k);
        let p = pow2((k - 1) as nat);
        vstd::arithmetic::power2::lemma_pow2_pos((k - 1) as nat);
        assert(x >= 0x100_0000) by (nonlinear_arith)
            requires
                0x80_0000 * (2 * p) <= x,
                p >= 1,
        ;
        assert(0x80_0000 * p <= x / 2 < 0x100_0000 * p) by (nonlinear_arith)
            requires
                0x80_0000 * (2 * p) <= x < 0x100_0000 * (2 * p),
        ;
        lemma_ulp_steps(x / 2, (k - 1) as nat);
    }
}

/// Build parameters for an index: the `WITH (...)` clause where one was given,
/// defaults otherwise, and the metric the operator class chose.
pub fn build_params(options: Option<&BrindleOptions>, metric: Metric) -> (r: HnswParams)
    requires
        options matches Some(o) ==> o.in_range(),
    ensures
        r.metric == metric,
        r.seed == DEFAULT_SEED,
        match options {
            None => r.m == 16 && r.ef_construction == 64 && r.gamma == F32_ONE,
            Some(o) => r.m == o.m && r.ef_construction == o.ef_construction && r.gamma
                == single_gamma(o.gamma),
        },
{
    let defaults = HnswParams::default();
    match options {
        None => HnswParams { metric, ..defaults },
        Some(o) => HnswParams {
            m: o.m as usize,
            ef_construction: o.ef_construction as usize,
            gamma: to_single(o.gamma),
            metric,
            seed: defaults.seed,
        },
    }
}

/// Rounding a density to single precision moves it by no more than half a unit of
/// the last place: read as numbers, the bits differ from those of the double, cut
/// to the same exponent, by at most half of what single precision drops.
pub proof fn densities_round_to_the_nearest(gamma: u64)
    requires
        0x3ff0_0000_0000_0000 <= gamma <= 0x4090_0000_0000_0000,
    ensures
        -0x1000_0000 <= single_gamma(gamma) * 0x2000_0000 - (gamma - 896 * 0x10_0000_0000_0000)
            <= 0x1000_0000,
        0x3f80_0000 <= single_gamma(gamma) <= 0x4480_0000,
{
    let sig = significand(gamma);
    lemma_round_at_least(sig);
    lemma_round_error(sig, 0x100_0000);
    let rounded = round_significant(sig, 0x100_0000);
    let u: nat = 0x2000_0000;
    let q = sig / u;
    assert(rounded == q * u || rounded == (q + 1) * u);
    assert(rounded / 0x2000_0000 * 0x2000_0000 == rounded);
}

/// Options are refused for their product only where `2 * m * gamma` exceeds 2048,
/// and wherever it does, up to the rounding of a double: one part in `2^53`.
pub proof fn degrees_are_limited(m: int, gamma: u64, unit: nat)
    requires
        2 <= m <= 128,
        0x3ff0_0000_0000_0000 <= gamma <= 0x4090_0000_0000_0000,
        unit == pow2((1075 - gamma / 0x10_0000_0000_0000) as nat),
    ensures
        ({
            let degree = layer0_degree(m, gamma);
            let exact = 2 * m * (0x10_0000_0000_0000 + gamma % 0x10_0000_0000_0000);
            &&& -exact <= (degree - exact) * 0x20_0000_0000_0000 <= exact
            &&& exact <= 2048 * unit ==> degree <= 2048 * unit
        }),
        places(gamma) == 1075 - gamma / 0x10_0000_0000_0000,
{
    let sig = significand(gamma);
    let exact = (2 * m) as nat * sig;
    let limit: nat = 0x20_0000_0000_0000;
    let degree = layer0_degree(m, gamma);
    let u = crate::floats::ulp(exact, limit);
    lemma_round_error(exact, limit);
    lemma_round_bound(exact, limit);
    assert(-exact <= (degree - exact) * 0x20_0000_0000_0000 <= exact) by {
        if exact >= limit {
            assert(-u <= 2 * (degree - exact) <= u);
            assert(u * limit <= 2 * exact);
        } else {
            assert(degree == exact);
        }
    }
    assert(exact == 2 * m * sig);
    if exact <= 2048 * unit {
        let p = places(gamma);
        let k = (p - 42) as nat;
        let most = limit * pow2(k);
        vstd::arithmetic::power2::lemma2_to64();
        vstd::arithmetic::power2::lemma2_to64_rest();
        vstd::arithmetic::power2::lemma_pow2_adds(11, p);
        vstd::arithmetic::power2::lemma_pow2_adds(53, k);
        assert(most == 2048 * unit);
        lemma_ulp_divides(exact, limit, k);
        let (q, r, n) = (exact / u, exact % u, most / u);
        assert(degree <= most) by (nonlinear_arith)
            requires
                u >= 1,
                q == exact / u,
                r == exact % u,
                n == most / u,
                most % u == 0,
                exact <= most,
                degree == q * u || (degree == (q + 1) * u && r > 0),
        {
            assert(exact == q * u + r && 0 <= r < u);
            assert(most == n * u);
            assert(degree == (q + 1) * u ==> q < n);
        }
    }
}

/// The unit of the last place of a number divides every power of two from there on.
proof fn lemma_ulp_divides(x: nat, limit: nat, k: nat)
    requires
        limit >= 2,
        limit % 2 == 0,
        x <= limit * pow2(k),
    ensures
        (limit * pow2(k)) % crate::floats::ulp(x, limit) == 0,
    decreases x,
{
    let u = crate::floats::ulp(x, limit);
    let most = limit * pow2(k);
    if x < limit {
        assert(most % 1 == 0);
    } else {
        let v = crate::floats::ulp(x / 2, limit);
        lemma_round_bound(x / 2, limit);
        if k == 0 {
            vstd::arithmetic::power2::lemma2_to64();
            assert(v == 1);
        } else {
            let half = limit * pow2((k - 1) as nat);
            vstd::arithmetic::power2::lemma_pow2_unfold(k);
            assert(most == 2 * half) by (nonlinear_arith)
                requires
                    most == limit * pow2(k),
                    half == limit * pow2((k - 1) as nat),
                    pow2(k) == 2 * pow2((k - 1) as nat),
            ;
            lemma_ulp_divides(x / 2, limit, (k - 1) as nat);
            let n = half / v;
            assert(half == n * v) by (nonlinear_arith)
                requires
                    v >= 1,
                    n == half / v,
                    half % v == 0,
            ;
            assert(most == n * u) by (nonlinear_arith)
                requires
                    most == 2 * half,
                    half == n * v,
                    u == 2 * v,
            ;
            vstd::arithmetic::div_mod::lemma_mod_multiples_basic(n as int, u as int);
        }
    }
}

/// Options are refused exactly for asking for more than 2048 neighbors per node,
/// `2 * m * gamma` being taken in double precision, and the refusal tells how many
/// whole neighbors they ask for.
pub proof fn excessive_degrees_are_refused(
    options: BrindleOptions,
    unit: nat,
    r: Result<(), ExcessiveDegree>,
)
    requires
        2 <= options.m <= 128,
        0x3ff0_0000_0000_0000 <= options.gamma <= 0x4090_0000_0000_0000,
        unit == pow2((1075 - options.gamma / 0x10_0000_0000_0000) as nat),
        call_ensures(reject_excessive_degree, (&options,), r),
    ensures
        ({
            let exact = 2 * options.m * (0x10_0000_0000_0000 + options.gamma
                % 0x10_0000_0000_0000);
            &&& exact <= 2048 * unit ==> r is Ok
            &&& exact > 2049 * unit ==> (r matches Err(e) && e.m == options.m && {
                &&& 2048 <= e.degree
                &&& (e.degree - 1) * unit <= exact <= (e.degree + 2) * unit
            })
        }),
{
    degrees_are_limited(options.m as int, options.gamma, unit);
    let degree = layer0_degree(options.m as int, options.gamma);
    let sig = significand(options.gamma);
    let exact = 2 * options.m * sig;
    let p = places(options.gamma);
    vstd::arithmetic::power2::lemma2_to64();
    vstd::arithmetic::power2::lemma2_to64_rest();
    if p > 42 {
        vstd::arithmetic::power2::lemma_pow2_strictly_increases(42, p);
    }
    assert(unit >= 0x400_0000_0000);
    assert(exact <= 256 * 0x20_0000_0000_0000) by (nonlinear_arith)
        requires
            exact == 2 * options.m * sig,
            0 <= options.m <= 128,
            0 <= sig <= 0x20_0000_0000_0000,
    ;
    assert(-256 <= degree - exact <= 256);
    if exact > 2049 * unit {
        assert(degree > 2048 * unit);
        let q = degree / unit;
        assert(q * unit <= degree < (q + 1) * unit && q >= 2048 && q < 0x1_0000_0000) by (nonlinear_arith)
            requires
                q == degree / unit,
                degree > 2048 * unit,
                unit >= 0x400_0000_0000,
                degree <= 256 * 0x20_0000_0000_0000 + 256,
        ;
        assert((q - 1) * unit <= exact <= (q + 2) * unit) by (nonlinear_arith)
            requires
                q * unit <= degree < (q + 1) * unit,
                -256 <= degree - exact <= 256,
                unit >= 0x400_0000_0000,
        ;
    }
}

/// A build takes its options as they are given, with the density in single
/// precision. Without any it takes degree 16, a pool of 64 and no densification.
pub proof fn builds_follow_their_options(
    options: Option<&BrindleOptions>,
    metric: Metric,
    r: HnswParams,
)
    requires
        call_ensures(build_params, (options, metric), r),
    ensures
        r.metric == metric,
        options is None ==> r.m == 16 && r.ef_construction == 64 && r.gamma == 0x3f80_0000,
        options matches Some(o) ==> r.m == o.m && r.ef_construction == o.ef_construction,
        options matches Some(o) ==> 0x3ff0_0000_0000_0000 <= o.gamma <= 0x4090_0000_0000_0000
            ==> -0x1000_0000 <= r.gamma * 0x2000_0000 - (o.gamma - 896 * 0x10_0000_0000_0000)
            <= 0x1000_0000,
{
    if let Some(o) = options {
        if 0x3ff0_0000_0000_0000 <= o.gamma <= 0x4090_0000_0000_0000 {
            densities_round_to_the_nearest(o.gamma);
        }
    }
}

/// Options run from 2 to 128 for the degree, from 4 to 1000 for the pool, and from
/// 1 to 1024 for the density.
pub proof fn option_ranges(options: BrindleOptions, ok: bool)
    requires
        call_ensures(BrindleOptions::check_ranges, (&options,), ok),
    ensures
        ok <==> {
            &&& 2 <= options.m <= 128
            &&& 4 <= options.ef_construction <= 1000
            &&& 0x3ff0_0000_0000_0000 <= options.gamma <= 0x4090_0000_0000_0000
        },
{
}

} // verus!
