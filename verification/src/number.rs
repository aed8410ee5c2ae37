use vstd::arithmetic::power2::{lemma2_to64, lemma_pow2_pos, lemma_pow2_strictly_increases, lemma_pow2_unfold, pow2};
use vstd::prelude::*;

verus! {

/// Two to the power 52: the weight of the hidden bit of a double.
pub const HIDDEN_BIT: u64 = 0x10_0000_0000_0000;

/// Two to the power 63: the sign bit of a double.
pub const SIGN_BIT: u64 = 0x8000_0000_0000_0000;

/// The bit pattern of the quiet not-a-number the engine hands out.
pub const NAN_BITS: u64 = 0x7ff8_0000_0000_0000;

/// The bit pattern of positive infinity.
pub const INFINITY_BITS: u64 = 0x7ff0_0000_0000_0000;

/// The bit pattern of negative infinity.
pub const NEG_INFINITY_BITS: u64 = 0xfff0_0000_0000_0000;

/// The bit pattern of the double 1.
pub const ONE_BITS: u64 = 0x3ff0_0000_0000_0000;

/// Whether the sign bit of a double is set.
pub open spec fn is_negative(bits: u64) -> bool {
    bits >= 0x8000_0000_0000_0000
}

/// The biased exponent of a double, 0 to 2047.
pub open spec fn exponent_field(bits: u64) -> int {
    (bits as int / 0x10_0000_0000_0000) % 0x800
}

/// The 52 explicit fraction bits of a double.
pub open spec fn fraction_field(bits: u64) -> int {
    bits as int % 0x10_0000_0000_0000
}

/// Whether a bit pattern is a not-a-number.
pub open spec fn is_nan(bits: u64) -> bool {
    exponent_field(bits) == 0x7ff && fraction_field(bits) != 0
}

/// The magnitude of a double with its fractional part cut off. An infinity counts as
/// a magnitude beyond every machine integer.
pub open spec fn truncated_magnitude(bits: u64) -> nat {
    let e = exponent_field(bits);
    let m = 0x10_0000_0000_0000 + fraction_field(bits);
    if e < 1023 {
        0
    } else if e >= 1075 {
        (m * pow2((e - 1075) as nat)) as nat
    } else {
        (m / (pow2((1075 - e) as nat) as int)) as nat
    }
}

/// The integer a double is rounded to, toward zero. Not-a-number counts as zero.
pub open spec fn truncated(bits: u64) -> int {
    if is_nan(bits) {
        0
    } else if is_negative(bits) {
        -(truncated_magnitude(bits) as int)
    } else {
        truncated_magnitude(bits) as int
    }
}

/// `v` held to the range from `lo` to `hi`.
pub open spec fn clamp(v: int, lo: int, hi: int) -> int {
    if v < lo {
        lo
    } else if v > hi {
        hi
    } else {
        v
    }
}

/// Whether a double is a whole number other than minus zero.
pub open spec fn is_whole(bits: u64) -> bool {
    let e = exponent_field(bits);
    let f = fraction_field(bits);
    if e == 0 {
        f == 0 && !is_negative(bits)
    } else if e < 1023 || e == 0x7ff {
        false
    } else if e >= 1075 {
        true
    } else {
        f % (pow2((1075 - e) as nat) as int) == 0
    }
}

/// Whether a double is a whole number from 0 to 4294967295, minus zero left out.
pub open spec fn is_uint32(bits: u64) -> bool {
    !is_negative(bits) && is_whole(bits) && truncated(bits) <= 0xffff_ffff
}

/// Whether a double is a whole number from -2147483648 to 2147483647, minus zero
/// left out.
pub open spec fn is_int32(bits: u64) -> bool {
    is_whole(bits) && -0x8000_0000 <= truncated(bits) <= 0x7fff_ffff
}

/// `k` doublings of one.
fn power_of_two(k: u64) -> (r: u64)
    requires
        k < 64,
    ensures
        r as nat == pow2(k as nat),
{
    let mut r: u64 = 1;
    let mut i: u64 = 0;
    proof {
        lemma2_to64();
    }
    while i < k
        invariant
            i <= k,
            k < 64,
            r as nat == pow2(i as nat),
        decreases k - i,
    {
        proof {
            lemma_pow2_unfold((i + 1) as nat);
            lemma_pow2_strictly_increases((i + 1) as nat, 64);
            lemma2_to64();
        }
        r = r * 2;
        i = i + 1;
    }
    r
}

/// The magnitude of a double, cut off toward zero and held to 64 bits, with whether
/// the true magnitude is larger than that.
fn magnitude_u64(bits: u64) -> (r: (u64, bool))
    ensures
        r.1 <==> truncated_magnitude(bits) > u64::MAX,
        !r.1 ==> r.0 as nat == truncated_magnitude(bits),
{
    let e: u64 = (bits / HIDDEN_BIT) % 0x800;
    let m: u64 = HIDDEN_BIT + bits % HIDDEN_BIT;
    if e < 1023 {
        (0, false)
    } else if e >= 1075 {
        let shift: u64 = e - 1075;
        if shift >= 12 {
            proof {
                lemma2_to64();
                if shift > 12 {
                    lemma_pow2_strictly_increases(12, shift as nat);
                }
                assert(pow2(shift as nat) >= 4096);
                assert(m * pow2(shift as nat) >= 0x10_0000_0000_0000 * 4096) by (nonlinear_arith)
                    requires
                        m >= 0x10_0000_0000_0000,
                        pow2(shift as nat) >= 4096,
                ;
            }
            (0, true)
        } else {
            let p = power_of_two(shift);
            proof {
                lemma2_to64();
                if shift < 11 {
                    lemma_pow2_strictly_increases(shift as nat, 11);
                }
                assert(p <= 2048);
                assert(m * p <= 0x1f_ffff_ffff_ffff * 2048) by (nonlinear_arith)
                    requires
                        m <= 0x1f_ffff_ffff_ffff,
                        p <= 2048,
                ;
            }
            (m * p, false)
        }
    } else {
        let p = power_of_two(1075 - e);
        proof {
            lemma_pow2_pos((1075 - e) as nat);
        }
        (m / p, false)
    }
}

/// A double as a signed 64-bit integer: the fractional part is cut off, a value out
/// of range becomes the nearest bound, and not-a-number becomes zero.
pub fn number_to_i64(bits: u64) -> (r: i64)
    ensures
        r as int == clamp(truncated(bits), i64::MIN as int, i64::MAX as int),
{
    let e: u64 = (bits / HIDDEN_BIT) % 0x800;
    let f: u64 = bits % HIDDEN_BIT;
    if e == 0x7ff && f != 0 {
        return 0;
    }
    let (mag, over) = magnitude_u64(bits);
    if bits >= SIGN_BIT {
        if over || mag > SIGN_BIT {
            i64::MIN
        } else if mag == SIGN_BIT {
            i64::MIN
        } else {
            0 - (mag as i64)
        }
    } else {
        if over || mag >= SIGN_BIT {
            i64::MAX
        } else {
            mag as i64
        }
    }
}

/// A double as an unsigned 64-bit integer: the fractional part is cut off, a value
/// out of range becomes the nearest bound, and not-a-number becomes zero.
pub fn number_to_u64(bits: u64) -> (r: u64)
    ensures
        r as int == clamp(truncated(bits), 0, u64::MAX as int),
{
    let e: u64 = (bits / HIDDEN_BIT) % 0x800;
    let f: u64 = bits % HIDDEN_BIT;
    if e == 0x7ff && f != 0 {
        return 0;
    }
    let (mag, over) = magnitude_u64(bits);
    if bits >= SIGN_BIT {
        0
    } else if over {
        u64::MAX
    } else {
        mag
    }
}

/// Whether a double is a whole number other than minus zero.
fn whole(bits: u64) -> (r: bool)
    ensures
        r == is_whole(bits),
{
    let e: u64 = (bits / HIDDEN_BIT) % 0x800;
    let f: u64 = bits % HIDDEN_BIT;
    if e == 0 {
        f == 0 && bits < SIGN_BIT
    } else if e < 1023 || e == 0x7ff {
        false
    } else if e >= 1075 {
        true
    } else {
        let p = power_of_two(1075 - e);
        proof {
            lemma_pow2_pos((1075 - e) as nat);
        }
        f % p == 0
    }
}

/// Whether the engine counts a double as an unsigned 32-bit integer.
pub fn number_is_uint32(bits: u64) -> (r: bool)
    ensures
        r == is_uint32(bits),
{
    if bits >= SIGN_BIT {
        return false;
    }
    whole(bits) && number_to_u64(bits) <= 0xffff_ffff
}

/// Whether the engine counts a double as a signed 32-bit integer.
pub fn number_is_int32(bits: u64) -> (r: bool)
    ensures
        r == is_int32(bits),
{
    if !whole(bits) {
        return false;
    }
    let v = number_to_i64(bits);
    -0x8000_0000 <= v && v <= 0x7fff_ffff
}

} // verus!
