//! IEEE 754 doubles, held as their 64 bits.
//!
//! A number value keeps the bits that came off the wire, whatever they mean:
//! zeros of either sign, subnormals, infinities and every NaN stay as they
//! are. Only a date looks into the bits, to see whether they are a time and
//! to find its whole milliseconds.

use vstd::arithmetic::power2::lemma2_to64;
use vstd::arithmetic::power2::lemma_pow2_pos;
use vstd::arithmetic::power2::lemma_pow2_strictly_increases;
use vstd::arithmetic::power2::pow2;
use vstd::bits::lemma_u64_shl_is_mul;
use vstd::bits::lemma_u64_shr_is_div;
use vstd::prelude::*;

verus! {

/// The exponent field whose doubles are the infinities and the NaNs.
pub const EXPONENT_SPECIAL: u64 = 0x7ff;

/// The exponent field of the doubles from 1 up to, not including, 2.
pub const EXPONENT_BIAS: u64 = 1023;

/// The number of bits in the fraction field.
pub const FRACTION_BITS: u64 = 52;

/// Whether the sign bit of the double is set.
pub open spec fn sign_bit(bits: u64) -> bool {
    bits >= 0x8000_0000_0000_0000
}

/// The exponent field of the double: its bits 52 to 62.
pub open spec fn exponent(bits: u64) -> nat {
    ((bits / 0x10_0000_0000_0000) % 0x800) as nat
}

/// The fraction field of the double: its low 52 bits.
pub open spec fn fraction(bits: u64) -> nat {
    (bits % 0x10_0000_0000_0000) as nat
}

/// Whether the double is neither an infinity nor a NaN.
pub open spec fn is_finite(bits: u64) -> bool {
    exponent(bits) != EXPONENT_SPECIAL
}

/// The bits of the negative zero: the sign bit and nothing else.
pub const NEGATIVE_ZERO: u64 = 0x8000_0000_0000_0000;

/// Whether the double is below zero: its sign bit is set and it is not the
/// negative zero, which is a zero like the other. Only of a double that is
/// no NaN does this say anything.
pub open spec fn is_below_zero(bits: u64) -> bool {
    sign_bit(bits) && bits != NEGATIVE_ZERO
}

/// Whether the double is finite and not below zero: what a date asks of its
/// milliseconds. Both zeros are such doubles.
pub open spec fn is_valid_millis(bits: u64) -> bool {
    is_finite(bits) && !is_below_zero(bits)
}

/// Whether the double is a NaN.
pub open spec fn is_nan(bits: u64) -> bool {
    exponent(bits) == EXPONENT_SPECIAL && fraction(bits) != 0
}

/// The whole part of the magnitude of a double that is no NaN: the
/// magnitude rounded towards zero.
///
/// With exponent field `e` and fraction field `f`, a magnitude from 1
/// upwards is `(2^52 + f) * 2^(e - 1075)`; one below 1, subnormals among
/// them, has `e < 1023` and the whole part 0. For an infinity the formula
/// gives a number beyond every `u64`.
pub open spec fn whole_part(bits: u64) -> nat {
    let e = exponent(bits);
    let significand = 0x10_0000_0000_0000 + fraction(bits);
    if e < EXPONENT_BIAS {
        0
    } else if e <= EXPONENT_BIAS + FRACTION_BITS {
        significand / pow2((EXPONENT_BIAS + FRACTION_BITS - e) as nat)
    } else {
        significand * pow2((e - EXPONENT_BIAS - FRACTION_BITS) as nat)
    }
}

/// The double as whole milliseconds: rounded towards zero and brought into
/// the range of `u64`. A double with its sign bit set gives 0, a double
/// beyond the range gives `u64::MAX`, and a NaN gives 0.
pub open spec fn whole_millis(bits: u64) -> u64 {
    if sign_bit(bits) || is_nan(bits) {
        0
    } else if whole_part(bits) > u64::MAX {
        u64::MAX
    } else {
        whole_part(bits) as u64
    }
}

/// Whether the double is finite and not below zero.
pub fn valid_millis(bits: u64) -> (valid: bool)
    ensures
        valid == is_valid_millis(bits),
{
    let e: u64 = (bits >> 52) & 0x7ff;
    assert(e == (bits / 0x10_0000_0000_0000) % 0x800) by (bit_vector)
        requires
            e == (bits >> 52) & 0x7ff,
    ;
    e != EXPONENT_SPECIAL && bits <= NEGATIVE_ZERO
}

/// The double as whole milliseconds.
pub fn millis_from_double(bits: u64) -> (millis: u64)
    ensures
        millis == whole_millis(bits),
{
    let e: u64 = (bits >> 52) & 0x7ff;
    let f: u64 = bits & 0xf_ffff_ffff_ffff;
    let significand: u64 = f | 0x10_0000_0000_0000;
    assert(e == (bits / 0x10_0000_0000_0000) % 0x800) by (bit_vector)
        requires
            e == (bits >> 52) & 0x7ff,
    ;
    assert(f == bits % 0x10_0000_0000_0000) by (bit_vector)
        requires
            f == bits & 0xf_ffff_ffff_ffff,
    ;
    assert(significand == 0x10_0000_0000_0000 + f) by (bit_vector)
        requires
            f <= 0xf_ffff_ffff_ffff,
            significand == f | 0x10_0000_0000_0000,
    ;
    if bits >= 0x8000_0000_0000_0000 || (e == EXPONENT_SPECIAL && f != 0) {
        0
    } else if e < EXPONENT_BIAS {
        0
    } else if e <= EXPONENT_BIAS + FRACTION_BITS {
        let shift: u64 = EXPONENT_BIAS + FRACTION_BITS - e;
        proof {
            lemma_u64_shr_is_div(significand, shift);
        }
        significand >> shift
    } else {
        let shift: u64 = e - EXPONENT_BIAS - FRACTION_BITS;
        if shift <= 11 {
            proof {
                lemma2_to64();
                lemma_pow2_pos(shift as nat);
                if shift < 11 {
                    lemma_pow2_strictly_increases(shift as nat, 11);
                }
                assert(pow2(shift as nat) <= 0x800);
                assert(significand * pow2(shift as nat) <= 0x1f_ffff_ffff_ffff * 0x800)
                    by (nonlinear_arith)
                    requires
                        significand <= 0x1f_ffff_ffff_ffff,
                        pow2(shift as nat) <= 0x800,
                ;
                lemma_u64_shl_is_mul(significand, shift);
            }
            significand << shift
        } else {
            proof {
                lemma2_to64();
                if shift > 12 {
                    lemma_pow2_strictly_increases(12, shift as nat);
                }
                assert(pow2(shift as nat) >= 0x1000);
                assert(significand * pow2(shift as nat) >= 0x10_0000_0000_0000 * 0x1000)
                    by (nonlinear_arith)
                    requires
                        significand >= 0x10_0000_0000_0000,
                        pow2(shift as nat) >= 0x1000,
                ;
            }
            u64::MAX
        }
    }
}

} // verus!
