//! IEEE 754 values as their bit patterns.
//!
//! Every float the index stores or compares is carried as the integer holding
//! its bits: `f32` as `u32`, `f64` as `u64`. Ordering, range checks and the
//! rounding behind the degree caps are integer arithmetic on those bits.

use vstd::arithmetic::power2::pow2;
use vstd::prelude::*;

verus! {

/// Bits of the `f32` infinity.
pub const F32_INFINITY: u32 = 0x7f80_0000;

/// Bits of `1.0f32`.
pub const F32_ONE: u32 = 0x3f80_0000;

/// The bits of the quiet NaN that stands for an undefined result.
pub const F32_NAN: u32 = 0x7fc0_0000;

/// Sign bit of an `f32`.
pub const F32_SIGN: u32 = 0x8000_0000;

/// Bits of the `f64` infinity.
pub const F64_INFINITY: u64 = 0x7ff0_0000_0000_0000;

/// Sign bit of an `f64`.
pub const F64_SIGN: u64 = 0x8000_0000_0000_0000;

/// The value of a magnitude with `fb` fraction bits, in units of the smallest
/// subnormal. Infinity counts as one step past the largest finite magnitude.
pub open spec fn scaled(mag: nat, fb: nat) -> nat {
    let e = mag / pow2(fb);
    let f = mag % pow2(fb);
    if e == 0 {
        f
    } else {
        (pow2(fb) + f) * pow2((e - 1) as nat)
    }
}

/// Larger magnitude bits mean a larger value, whatever the fraction width.
pub proof fn lemma_scaled_mono(a: nat, b: nat, fb: nat)
    requires
        a < b,
    ensures
        scaled(a, fb) < scaled(b, fb),
{
    let p = pow2(fb);
    vstd::arithmetic::power2::lemma_pow2_pos(fb);
    let (ea, fa) = (a / p, a % p);
    let (eb, f_b) = (b / p, b % p);
    assert(a == ea * p + fa && b == eb * p + f_b && fa < p && f_b < p) by (nonlinear_arith)
        requires
            p > 0,
            ea == a / p,
            fa == a % p,
            eb == b / p,
            f_b == b % p,
    ;
    assert(ea <= eb) by (nonlinear_arith)
        requires
            a < b,
            p > 0,
            a == ea * p + fa,
            b == eb * p + f_b,
            fa < p,
            f_b < p,
    ;
    if ea == eb {
        if ea > 0 {
            let q = pow2((ea - 1) as nat);
            vstd::arithmetic::power2::lemma_pow2_pos((ea - 1) as nat);
            assert((p + fa) * q < (p + f_b) * q) by (nonlinear_arith)
                requires
                    fa < f_b,
                    q > 0,
            ;
        }
    } else {
        let q = pow2((eb - 1) as nat);
        vstd::arithmetic::power2::lemma_pow2_pos((eb - 1) as nat);
        assert((p + f_b) * q >= p * q) by (nonlinear_arith);
        if ea == 0 {
            assert(p * q >= p) by (nonlinear_arith)
                requires
                    q >= 1,
            ;
        } else {
            let r = pow2((ea - 1) as nat);
            vstd::arithmetic::power2::lemma_pow2_pos((ea - 1) as nat);
            vstd::arithmetic::power2::lemma_pow2_unfold(ea);
            if ea < eb - 1 {
                vstd::arithmetic::power2::lemma_pow2_strictly_increases(ea, (eb - 1) as nat);
            }
            assert(q >= 2 * r);
            assert((p + fa) * r < p * q) by (nonlinear_arith)
                requires
                    fa < p,
                    q >= 2 * r,
                    r > 0,
                    p > 0,
            ;
        }
    }
}

/// The magnitude bits of an `f32`: everything but the sign.
pub open spec fn f32_mag(bits: u32) -> nat {
    if bits >= F32_SIGN {
        (bits - F32_SIGN) as nat
    } else {
        bits as nat
    }
}

pub open spec fn f32_is_nan(bits: u32) -> bool {
    f32_mag(bits) > F32_INFINITY
}

pub open spec fn f32_is_finite(bits: u32) -> bool {
    f32_mag(bits) < F32_INFINITY
}

/// The number an `f32` stands for, in units of the smallest subnormal.
pub open spec fn f32_value(bits: u32) -> int {
    if bits >= F32_SIGN {
        -(scaled(f32_mag(bits), 23) as int)
    } else {
        scaled(f32_mag(bits), 23) as int
    }
}

/// IEEE `a < b`: false as soon as either side is a NaN.
pub open spec fn f32_lt(a: u32, b: u32) -> bool {
    !f32_is_nan(a) && !f32_is_nan(b) && f32_value(a) < f32_value(b)
}

/// Rank of an `f32` in the IEEE total order: negative NaN, negative numbers,
/// negative zero, zero, positive numbers, positive NaN.
pub open spec fn f32_rank(bits: u32) -> int {
    if bits >= F32_SIGN {
        F32_SIGN - 1 - bits
    } else {
        bits as int
    }
}

/// The sign-magnitude integer that orders numbers as their values do.
pub open spec fn f32_signed(bits: u32) -> int {
    if bits >= F32_SIGN {
        -(f32_mag(bits) as int)
    } else {
        f32_mag(bits) as int
    }
}

/// Values order as the sign-magnitude integers do.
pub proof fn lemma_f32_value_order(a: u32, b: u32)
    ensures
        f32_value(a) < f32_value(b) <==> f32_signed(a) < f32_signed(b),
        f32_value(a) == f32_value(b) <==> f32_signed(a) == f32_signed(b),
{
    let (x, y) = (f32_mag(a), f32_mag(b));
    lemma_scaled_zero(23);
    if x < y {
        lemma_scaled_mono(x, y, 23);
    } else if y < x {
        lemma_scaled_mono(y, x, 23);
    }
    if x > 0 {
        lemma_scaled_mono(0, x, 23);
    }
    if y > 0 {
        lemma_scaled_mono(0, y, 23);
    }
}

/// A zero magnitude is zero.
pub proof fn lemma_scaled_zero(fb: nat)
    ensures
        scaled(0, fb) == 0,
{
    vstd::arithmetic::power2::lemma_pow2_pos(fb);
    assert(0nat / pow2(fb) == 0 && 0nat % pow2(fb) == 0) by (nonlinear_arith)
        requires
            pow2(fb) > 0,
    ;
}

/// IEEE `a < b` on `f32` bits.
pub fn f32_less(a: u32, b: u32) -> (r: bool)
    ensures
        r == f32_lt(a, b),
{
    let ma: u32 = if a >= F32_SIGN { a - F32_SIGN } else { a };
    let mb: u32 = if b >= F32_SIGN { b - F32_SIGN } else { b };
    proof {
        lemma_f32_value_order(a, b);
    }
    if ma > F32_INFINITY || mb > F32_INFINITY {
        return false;
    }
    let sa: i64 = if a >= F32_SIGN { -(ma as i64) } else { ma as i64 };
    let sb: i64 = if b >= F32_SIGN { -(mb as i64) } else { mb as i64 };
    sa < sb
}

/// Rank of an `f32` in the IEEE total order.
pub fn f32_total_rank(bits: u32) -> (r: i64)
    ensures
        r == f32_rank(bits),
{
    if bits >= F32_SIGN {
        F32_SIGN as i64 - 1 - bits as i64
    } else {
        bits as i64
    }
}

/// The bits of the negated float.
pub open spec fn f32_neg(bits: u32) -> u32 {
    if bits >= F32_SIGN {
        (bits - F32_SIGN) as u32
    } else {
        (bits + F32_SIGN) as u32
    }
}

/// Negate an `f32`: flip its sign bit.
pub fn f32_negate(bits: u32) -> (r: u32)
    ensures
        r == f32_neg(bits),
{
    if bits >= F32_SIGN {
        bits - F32_SIGN
    } else {
        bits + F32_SIGN
    }
}

/// The magnitude bits of an `f64`: everything but the sign.
pub open spec fn f64_mag(bits: u64) -> nat {
    if bits >= F64_SIGN {
        (bits - F64_SIGN) as nat
    } else {
        bits as nat
    }
}

pub open spec fn f64_is_nan(bits: u64) -> bool {
    f64_mag(bits) > F64_INFINITY
}

pub open spec fn f64_is_finite(bits: u64) -> bool {
    f64_mag(bits) < F64_INFINITY
}

/// The number an `f64` stands for, in units of the smallest subnormal.
pub open spec fn f64_value(bits: u64) -> int {
    if bits >= F64_SIGN {
        -(scaled(f64_mag(bits), 52) as int)
    } else {
        scaled(f64_mag(bits), 52) as int
    }
}

/// The sign-magnitude integer that orders numbers as their values do.
pub open spec fn f64_signed(bits: u64) -> int {
    if bits >= F64_SIGN {
        -(f64_mag(bits) as int)
    } else {
        f64_mag(bits) as int
    }
}

/// Values order as the sign-magnitude integers do.
pub proof fn lemma_f64_value_order(a: u64, b: u64)
    ensures
        f64_value(a) < f64_value(b) <==> f64_signed(a) < f64_signed(b),
        f64_value(a) == f64_value(b) <==> f64_signed(a) == f64_signed(b),
{
    let (x, y) = (f64_mag(a), f64_mag(b));
    lemma_scaled_zero(52);
    if x < y {
        lemma_scaled_mono(x, y, 52);
    } else if y < x {
        lemma_scaled_mono(y, x, 52);
    }
    if x > 0 {
        lemma_scaled_mono(0, x, 52);
    }
    if y > 0 {
        lemma_scaled_mono(0, y, 52);
    }
}

/// Rank of an `f64` in the IEEE total order.
pub open spec fn f64_rank(bits: u64) -> int {
    if bits >= F64_SIGN {
        F64_SIGN - 1 - bits
    } else {
        bits as int
    }
}

/// Rank of an `f64` in the IEEE total order.
pub fn f64_total_rank(bits: u64) -> (r: i128)
    ensures
        r == f64_rank(bits),
{
    if bits >= F64_SIGN {
        F64_SIGN as i128 - 1 - bits as i128
    } else {
        bits as i128
    }
}

/// Whether an `f64` is a NaN.
pub fn f64_nan(bits: u64) -> (r: bool)
    ensures
        r == f64_is_nan(bits),
{
    let mag: u64 = if bits >= F64_SIGN { bits - F64_SIGN } else { bits };
    mag > F64_INFINITY
}

/// The sign-magnitude integer of an `f64`.
pub fn f64_signed_magnitude(bits: u64) -> (r: i128)
    ensures
        r == f64_signed(bits),
{
    if bits >= F64_SIGN {
        -((bits - F64_SIGN) as i128)
    } else {
        bits as i128
    }
}

/// The unit in the last place of `x` when its significand is kept below `limit`.
pub open spec fn ulp(x: nat, limit: nat) -> nat
    decreases x,
{
    if x < limit || limit < 2 {
        1
    } else {
        2 * ulp(x / 2, limit)
    }
}

/// `x` rounded to a significand below `limit`, ties to even: what a float keeps
/// of an exact integer, `limit` being two to the significand's width.
pub open spec fn round_significant(x: nat, limit: nat) -> nat {
    let u = ulp(x, limit);
    let q = x / u;
    let r = x % u;
    if 2 * r > u || (2 * r == u && q % 2 == 1) {
        (q + 1) * u
    } else {
        q * u
    }
}

/// A number that fits the significand is kept as it is.
pub proof fn lemma_round_small(x: nat, limit: nat)
    requires
        x < limit,
    ensures
        round_significant(x, limit) == x,
{
    assert(x / 1 == x && x % 1 == 0) by (nonlinear_arith);
    assert(x * 1 == x) by (nonlinear_arith);
}

/// The unit never exceeds the number, and rounding at most doubles it.
pub proof fn lemma_round_bound(x: nat, limit: nat)
    requires
        limit >= 2,
    ensures
        1 <= ulp(x, limit),
        x > 0 ==> ulp(x, limit) <= x,
        round_significant(x, limit) <= 2 * x,
    decreases x,
{
    if x >= limit {
        lemma_round_bound(x / 2, limit);
    }
    let u = ulp(x, limit);
    let q = x / u;
    let r = x % u;
    assert(q * u + r == x && 0 <= r) by (nonlinear_arith)
        requires
            u >= 1,
            q == x / u,
            r == x % u,
    ;
    assert((q + 1) * u == q * u + u) by (nonlinear_arith);
    if x == 0 {
        assert(q * u == 0 && r == 0) by (nonlinear_arith)
            requires
                q * u + r == x,
                x == 0,
                q >= 0,
                u >= 1,
                r >= 0,
        ;
    }
}

/// Round `x` to a significand below `limit`, ties to even.
pub fn round_to_significand(x: u128, limit: u128) -> (r: u128)
    requires
        limit >= 2,
        x < 0x1_0000_0000_0000_0000_0000_0000_0000u128,
    ensures
        r == round_significant(x as nat, limit as nat),
{
    let mut y: u128 = x;
    let mut u: u128 = 1;
    assert(1 * ulp(x as nat, limit as nat) == ulp(x as nat, limit as nat));
    while y >= limit
        invariant
            limit >= 2,
            x < 0x1_0000_0000_0000_0000_0000_0000_0000u128,
            u >= 1,
            u * ulp(y as nat, limit as nat) == ulp(x as nat, limit as nat),
            u * y <= x,
        decreases y,
    {
        proof {
            let half: u128 = y / 2;
            let h = ulp(half as nat, limit as nat);
            assert(u * (2 * h) == (2 * u) * h) by (nonlinear_arith);
            assert((2 * u) * half <= u * y && 2 * u <= u * y) by (nonlinear_arith)
                requires
                    2 * half <= y,
                    u >= 1,
                    y >= 2,
            ;
        }
        y = y / 2;
        u = u * 2;
    }
    proof {
        assert(u * 1 == u) by (nonlinear_arith);
        lemma_round_bound(x as nat, limit as nat);
    }
    let q: u128 = x / u;
    let rest: u128 = x % u;
    proof {
        assert(q * u + rest == x && rest < u) by (nonlinear_arith)
            requires
                u >= 1,
                q == x / u,
                rest == x % u,
        ;
        assert((q + 1) * u == q * u + u) by (nonlinear_arith);
    }
    if rest > u - rest || (rest == u - rest && q % 2 == 1) {
        (q + 1) * u
    } else {
        q * u
    }
}

/// Magnitude bits of the `f64` with the value of an `f32` of finite magnitude.
spec fn widened_mag(mag: nat) -> nat
    recommends
        mag < F32_INFINITY,
{
    let e = mag / 0x80_0000;
    let f = mag % 0x80_0000;
    if e > 0 {
        (e + 896) as nat * 0x10_0000_0000_0000 + f * 0x2000_0000
    } else if f == 0 {
        0
    } else {
        subnormal_mag(f, 0)
    }
}

/// Magnitude bits for `f` times two to the `-k` in units of the smallest `f32`
/// subnormal, once `f` has been shifted up to a full significand.
spec fn subnormal_mag(f: nat, k: nat) -> nat
    decreases 0x100_0000 - f,
{
    if f >= 0x80_0000 || f == 0 {
        (897 - k) as nat * 0x10_0000_0000_0000 + ((f - 0x80_0000) * 0x2000_0000) as nat
    } else {
        subnormal_mag(2 * f, k + 1)
    }
}

/// `wide` stands for the same number as `narrow`: a NaN for a NaN, an infinity
/// for an infinity, else the same value with the same sign. The unit of an `f32`
/// is two to the 925th that of an `f64`.
pub open spec fn same_number(narrow: u32, wide: u64) -> bool {
    &&& narrow >= F32_SIGN <==> wide >= F64_SIGN
    &&& f32_is_nan(narrow) <==> f64_is_nan(wide)
    &&& f32_is_finite(narrow) <==> f64_is_finite(wide)
    &&& f32_is_finite(narrow) ==> f64_value(wide) == f32_value(narrow) * pow2(925)
}

/// A full significand widens exactly.
proof fn lemma_widen_full(f: nat, e: nat)
    requires
        f < 0x80_0000,
        1 <= e,
    ensures
        scaled((e + 29) * 0x10_0000_0000_0000 + f * 0x2000_0000, 52) == (0x80_0000 + f) * pow2(
            (e - 1) as nat,
        ) * pow2(58),
{
    vstd::arithmetic::power2::lemma2_to64();
    vstd::arithmetic::power2::lemma2_to64_rest();
    let p: nat = 0x10_0000_0000_0000;
    assert(pow2(52) == p);
    let mag = (e + 29) * p + f * 0x2000_0000;
    assert(f * 0x2000_0000 < p);
    assert(mag / p == e + 29 && mag % p == f * 0x2000_0000) by {
        vstd::arithmetic::div_mod::lemma_fundamental_div_mod_converse(
            mag as int,
            p as int,
            (e + 29) as int,
            (f * 0x2000_0000) as int,
        );
    }
    let full = 0x80_0000 + f;
    assert(p + f * 0x2000_0000 == full * 0x2000_0000);
    vstd::arithmetic::power2::lemma_pow2_adds((e - 1) as nat, 29);
    assert(pow2((e + 28) as nat) == pow2((e - 1) as nat) * 0x2000_0000);
    let q = pow2((e - 1) as nat);
    assert((full * 0x2000_0000) * (q * 0x2000_0000) == full * q * (0x2000_0000 * 0x2000_0000))
        by (nonlinear_arith);
    vstd::arithmetic::power2::lemma_pow2_adds(29, 29);
    assert(pow2(58) == 0x2000_0000 * 0x2000_0000);
    assert((e + 29 - 1) as nat == (e + 28) as nat);
}

/// Two to a sum.
proof fn lemma_pow_sum(a: nat, b: nat)
    ensures
        pow2(a) * pow2(b) == pow2(a + b),
{
    vstd::arithmetic::power2::lemma_pow2_adds(a, b);
}

proof fn lemma_subnormal(f: nat, k: nat, start: nat)
    requires
        0 < f < 0x100_0000,
        k <= 23,
        f * pow2((896 - k) as nat) == start * pow2(896),
        f >= pow2(k),
        f >= 0x80_0000 || k < 23,
        k == 0 || f < 0x100_0000,
    ensures
        scaled(subnormal_mag(f, k), 52) == start * pow2(925),
        subnormal_mag(f, k) < F64_INFINITY,
        subnormal_mag(f, k) > 0,
    decreases 0x100_0000 - f,
{
    vstd::arithmetic::power2::lemma2_to64();
    if f >= 0x80_0000 {
        let g = (f - 0x80_0000) as nat;
        let e = (868 - k) as nat;
        lemma_widen_full(g, e);
        assert(subnormal_mag(f, k) == (e + 29) * 0x10_0000_0000_0000 + g * 0x2000_0000);
        assert(scaled(subnormal_mag(f, k), 52) == f * pow2((e - 1) as nat) * pow2(58));
        lemma_pow_sum((867 - k) as nat, 29);
        lemma_pow_sum(29, 29);
        lemma_pow_sum(896, 29);
        let a = pow2((867 - k) as nat);
        let h = pow2(29);
        assert(f * a * (h * h) == (f * (a * h)) * h) by (nonlinear_arith);
        assert((start * pow2(896)) * h == start * (pow2(896) * h)) by (nonlinear_arith);
        assert((868 - k - 1) as nat == (867 - k) as nat);
    } else {
        vstd::arithmetic::power2::lemma_pow2_unfold((896 - k) as nat);
        let a = pow2((895 - k) as nat);
        assert((896 - k - 1) as nat == (895 - k) as nat);
        assert(f * (2 * a) == (2 * f) * a) by (nonlinear_arith);
        vstd::arithmetic::power2::lemma_pow2_unfold(k + 1);
        assert(pow2(k + 1) == 2 * pow2(k));
        assert((896 - (k + 1)) as nat == (895 - k) as nat);
        if 2 * f < 0x80_0000 {
            if k + 1 >= 23 {
                assert(k == 22);
                assert(pow2(22) == 0x40_0000);
            }
        }
        lemma_subnormal(2 * f, k + 1, start);
    }
}

/// The `f64` of the same value as an `f32`.
pub fn widen(bits: u32) -> (r: u64)
    ensures
        same_number(bits, r),
{
    let negative = bits >= F32_SIGN;
    let mag: u32 = if negative { bits - F32_SIGN } else { bits };
    let e: u32 = mag / 0x80_0000;
    let f: u32 = mag % 0x80_0000;
    proof {
        vstd::arithmetic::power2::lemma2_to64();
    }
    let wide: u64 = if mag >= F32_INFINITY {
        // The fraction stays nonzero for a NaN, and zero for an infinity.
        F64_INFINITY + f as u64 * 0x2000_0000
    } else if e > 0 {
        (e as u64 + 896) * 0x10_0000_0000_0000 + f as u64 * 0x2000_0000
    } else if f == 0 {
        0
    } else {
        let mut g: u64 = f as u64;
        let mut k: u64 = 0;
        while g < 0x80_0000
            invariant
                0 < g < 0x100_0000,
                k <= 23,
                g >= pow2(k as nat),
                g >= 0x80_0000 || k < 23,
                subnormal_mag(g as nat, k as nat) == subnormal_mag(f as nat, 0),
            decreases 0x100_0000 - g,
        {
            proof {
                vstd::arithmetic::power2::lemma2_to64();
                vstd::arithmetic::power2::lemma_pow2_unfold((k + 1) as nat);
                if 2 * g < 0x80_0000 && k + 1 >= 23 {
                    assert(k == 22);
                    assert(pow2(22) == 0x40_0000);
                }
            }
            g = g * 2;
            k = k + 1;
        }
        (897 - k) * 0x10_0000_0000_0000 + (g - 0x80_0000) * 0x2000_0000
    };
    proof {
        if mag < F32_INFINITY {
            assert(wide == widened_mag(mag as nat));
            lemma_widened(mag as nat);
            let s = scaled(mag as nat, 23);
            assert(-(s as int) * pow2(925) == -((s * pow2(925)) as int)) by (nonlinear_arith);
        }
    }
    if negative {
        wide + F64_SIGN
    } else {
        wide
    }
}

proof fn lemma_widened(mag: nat)
    requires
        mag < F32_INFINITY,
    ensures
        scaled(widened_mag(mag), 52) == scaled(mag, 23) * pow2(925),
        widened_mag(mag) < F64_INFINITY,
{
    vstd::arithmetic::power2::lemma2_to64();
    let e = mag / 0x80_0000;
    let f = mag % 0x80_0000;
    assert(pow2(23) == 0x80_0000);
    if e > 0 {
        let x = e + 867;
        lemma_widen_full(f, x);
        let full = 0x80_0000 + f;
        lemma_pow_sum((e - 1) as nat, 867);
        lemma_pow_sum(867, 58);
        let (a, b, c) = (pow2((e - 1) as nat), pow2(867), pow2(58));
        assert(full * (a * b) * c == full * a * (b * c)) by (nonlinear_arith);
        assert((x - 1) as nat == (e - 1) as nat + 867);
    } else if f == 0 {
        lemma_scaled_zero(52);
        assert(0 * pow2(925) == 0) by (nonlinear_arith);
    } else {
        assert(pow2(0) == 1);
        lemma_subnormal(f, 0, f);
    }
}

/// The bits of an `f32` are a sign, eight bits of exponent and 23 of fraction. With
/// the exponent all ones it is an infinity or, where the fraction is not zero, a
/// NaN. Otherwise it is finite, and its value is the fraction, with a leading one
/// unless the exponent is zero, times a power of two.
pub proof fn singles_are_read_by_their_parts(bits: u32, negative: bool, e: nat, f: nat)
    requires
        e < 256,
        f < 0x80_0000,
        bits == (if negative {
            0x8000_0000int
        } else {
            0int
        }) + e * 0x80_0000 + f,
    ensures
        f32_is_nan(bits) <==> e == 255 && f > 0,
        f32_is_finite(bits) <==> e < 255,
        ({
            let size = if e == 0 {
                f
            } else {
                (0x80_0000 + f) * pow2((e - 1) as nat)
            };
            f32_value(bits) == (if negative {
                -size
            } else {
                size as int
            })
        }),
{
    vstd::arithmetic::power2::lemma2_to64();
    assert(f32_mag(bits) == e * 0x80_0000 + f);
    assert(pow2(23) == 0x80_0000);
}

/// The bits of an `f64` are a sign, eleven bits of exponent and 52 of fraction, read
/// alike.
pub proof fn doubles_are_read_by_their_parts(bits: u64, negative: bool, e: nat, f: nat)
    requires
        e < 2048,
        f < 0x10_0000_0000_0000,
        bits == (if negative {
            0x8000_0000_0000_0000int
        } else {
            0int
        }) + e * 0x10_0000_0000_0000 + f,
    ensures
        f64_is_nan(bits) <==> e == 2047 && f > 0,
        f64_is_finite(bits) <==> e < 2047,
        ({
            let size = if e == 0 {
                f
            } else {
                (0x10_0000_0000_0000 + f) * pow2((e - 1) as nat)
            };
            f64_value(bits) == (if negative {
                -size
            } else {
                size as int
            })
        }),
{
    vstd::arithmetic::power2::lemma2_to64();
    vstd::arithmetic::power2::lemma2_to64_rest();
    assert(f64_mag(bits) == e * 0x10_0000_0000_0000 + f);
    assert(pow2(52) == 0x10_0000_0000_0000);
}

/// Ranks order singles as their values do, tell apart all that differ, put
/// negative zero before zero, and NaNs outside of all numbers by their sign.
pub proof fn ranks_order_singles(a: u32, b: u32)
    ensures
        f32_rank(a) == f32_rank(b) <==> a == b,
        !f32_is_nan(a) && !f32_is_nan(b) && f32_value(a) < f32_value(b) ==> f32_rank(a)
            < f32_rank(b),
        !f32_is_nan(a) && !f32_is_nan(b) && f32_value(a) == f32_value(b) && a != b ==> {
            f32_value(a) == 0 && (f32_rank(a) < f32_rank(b) <==> a == 0x8000_0000)
        },
        f32_is_nan(a) && !f32_is_nan(b) ==> (f32_rank(b) < f32_rank(a) <==> a < 0x8000_0000),
        f32_value(f32_neg(a)) == -f32_value(a),
        f32_is_nan(f32_neg(a)) <==> f32_is_nan(a),
        f32_neg(f32_neg(a)) == a && f32_neg(a) != a,
{
    lemma_f32_value_order(a, b);
    lemma_f32_value_order(a, 0);
    lemma_scaled_zero(23);
}

/// Ranks order doubles alike.
pub proof fn ranks_order_doubles(a: u64, b: u64)
    ensures
        f64_rank(a) == f64_rank(b) <==> a == b,
        !f64_is_nan(a) && !f64_is_nan(b) && f64_value(a) < f64_value(b) ==> f64_rank(a)
            < f64_rank(b),
        !f64_is_nan(a) && !f64_is_nan(b) && f64_value(a) == f64_value(b) && a != b ==> {
            f64_value(a) == 0 && (f64_rank(a) < f64_rank(b) <==> a == 0x8000_0000_0000_0000)
        },
        f64_is_nan(a) && !f64_is_nan(b) ==> (f64_rank(b) < f64_rank(a) <==> a
            < 0x8000_0000_0000_0000),
{
    lemma_f64_value_order(a, b);
    lemma_f64_value_order(a, 0);
    lemma_scaled_zero(52);
}

} // verus!
