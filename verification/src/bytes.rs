//! Little-endian numbers as byte sequences.

use vstd::arithmetic::power::pow;
use vstd::prelude::*;

verus! {

/// `256^width`, the count of values that fit in `width` bytes.
pub open spec fn byte_range(width: nat) -> nat
    decreases width,
{
    if width == 0 {
        1
    } else {
        256 * byte_range((width - 1) as nat)
    }
}

/// The `width` low bytes of `value`, least significant first.
pub open spec fn le(value: nat, width: nat) -> Seq<u8>
    decreases width,
{
    if width == 0 {
        Seq::empty()
    } else {
        seq![(value % 256) as u8] + le(value / 256, (width - 1) as nat)
    }
}

/// The number whose little-endian bytes are `bytes`.
pub open spec fn from_le(bytes: Seq<u8>) -> nat
    decreases bytes.len(),
{
    if bytes.len() == 0 {
        0
    } else {
        bytes[0] as nat + 256 * from_le(bytes.drop_first())
    }
}

/// `width` bytes carry exactly `width` bytes.
pub broadcast proof fn lemma_le_len(value: nat, width: nat)
    ensures
        #[trigger] le(value, width).len() == width,
    decreases width,
{
    if width > 0 {
        lemma_le_len(value / 256, (width - 1) as nat);
    }
}

/// Reading back what was written gives the value, as long as it fits.
pub proof fn lemma_from_le_of_le(value: nat, width: nat)
    requires
        value < byte_range(width),
    ensures
        from_le(le(value, width)) == value,
    decreases width,
{
    if width > 0 {
        let rest: nat = (width - 1) as nat;
        assert(value / 256 < byte_range(rest)) by (nonlinear_arith)
            requires
                value < 256 * byte_range(rest),
        ;
        lemma_from_le_of_le(value / 256, rest);
        lemma_le_len(value / 256, rest);
        assert(le(value, width).drop_first() =~= le(value / 256, rest));
    }
}

/// Writing what was read gives back the same bytes.
pub proof fn lemma_le_of_from_le(bytes: Seq<u8>)
    ensures
        le(from_le(bytes), bytes.len()) == bytes,
    decreases bytes.len(),
{
    if bytes.len() > 0 {
        let rest = bytes.drop_first();
        lemma_le_of_from_le(rest);
        let value = from_le(bytes);
        assert(value % 256 == bytes[0] && value / 256 == from_le(rest));
        lemma_le_len(from_le(rest), rest.len());
        assert(le(value, bytes.len()) =~= bytes);
    } else {
        assert(le(from_le(bytes), bytes.len()) =~= bytes);
    }
}

/// What `width` bytes hold is below `256^width`.
pub proof fn lemma_from_le_bound(bytes: Seq<u8>)
    ensures
        from_le(bytes) < byte_range(bytes.len()),
    decreases bytes.len(),
{
    if bytes.len() > 0 {
        lemma_from_le_bound(bytes.drop_first());
    }
}

/// The ranges of the widths in use.
pub proof fn lemma_byte_ranges()
    ensures
        byte_range(1) == 0x100,
        byte_range(2) == 0x1_0000,
        byte_range(4) == 0x1_0000_0000,
        byte_range(8) == 0x1_0000_0000_0000_0000,
{
    reveal_with_fuel(byte_range, 9);
}

/// Append the `width` low bytes of `value` to `out`.
pub fn put_le(out: &mut Vec<u8>, value: u64, width: usize)
    ensures
        final(out)@ == old(out)@ + le(value as nat, width as nat),
{
    let mut rest: u64 = value;
    let mut left: usize = width;
    assert(out@ + le(value as nat, width as nat) =~= old(out)@ + le(value as nat, width as nat));
    while left > 0
        invariant
            out@ + le(rest as nat, left as nat) == old(out)@ + le(value as nat, width as nat),
        decreases left,
    {
        let ghost before = out@;
        out.push((rest % 256) as u8);
        proof {
            assert(out@ + le((rest / 256) as nat, (left - 1) as nat) =~= before + le(
                rest as nat,
                left as nat,
            ));
        }
        rest = rest / 256;
        left = left - 1;
    }
    assert(out@ + le(rest as nat, 0) =~= out@);
}

/// The number a slice of at most eight bytes holds.
pub fn get_le(bytes: &[u8]) -> (value: u64)
    requires
        bytes@.len() <= 8,
    ensures
        value == from_le(bytes@),
{
    let mut value: u64 = 0;
    let mut i: usize = bytes.len();
    assert(bytes@.skip(bytes@.len() as int) =~= Seq::<u8>::empty());
    while i > 0
        invariant
            i <= bytes@.len() <= 8,
            value == from_le(bytes@.skip(i as int)),
        decreases i,
    {
        i = i - 1;
        proof {
            let tail = bytes@.skip(i as int);
            assert(tail.drop_first() =~= bytes@.skip(i + 1));
            lemma_from_le_bound(tail.drop_first());
            lemma_byte_range_mono(tail.drop_first().len(), 7);
            reveal_with_fuel(byte_range, 9);
        }
        value = bytes[i] as u64 + 256 * value;
    }
    assert(bytes@.skip(0) =~= bytes@);
    value
}

/// More bytes hold more values.
pub proof fn lemma_byte_range_mono(a: nat, b: nat)
    requires
        a <= b,
    ensures
        1 <= byte_range(a) <= byte_range(b),
    decreases b,
{
    if b > 0 {
        if a < b {
            lemma_byte_range_mono(a, (b - 1) as nat);
        } else {
            lemma_byte_range_mono((a - 1) as nat, (b - 1) as nat);
        }
    }
}

/// Numbers are little-endian: byte `i` is the number's `i`-th digit to base 256.
pub proof fn bytes_are_little_endian(value: nat, width: nat, i: int)
    requires
        0 <= i < width,
    ensures
        le(value, width).len() == width,
        le(value, width)[i] as int == (value as int / pow(256, i as nat)) % 256,
    decreases width,
{
    lemma_le_len(value, width);
    let rest: nat = (width - 1) as nat;
    lemma_le_len(value / 256, rest);
    if i == 0 {
        vstd::arithmetic::power::lemma_pow0(256);
    } else {
        bytes_are_little_endian(value / 256, rest, i - 1);
        assert(le(value, width)[i] == le(value / 256, rest)[i - 1]);
        let p = pow(256, (i - 1) as nat);
        reveal(pow);
        assert(pow(256, i as nat) == 256 * p);
        vstd::arithmetic::power::lemma_pow_positive(256, (i - 1) as nat);
        vstd::arithmetic::div_mod::lemma_div_denominator(value as int, 256, p);
    }
}

} // verus!
