//! IEEE 754 binary64 numbers as 64-bit patterns.
//!
//! A pattern is one sign bit, eleven bits of biased exponent and fifty-two
//! bits of fraction. The spec functions here give the mathematical meaning of
//! a pattern; the executable functions read that meaning off the bits.

use vstd::arithmetic::div_mod::{
    lemma_div_by_multiple, lemma_div_by_multiple_is_strongly_ordered, lemma_div_is_ordered,
    lemma_small_mod,
};
use vstd::arithmetic::power2::{
    lemma2_to64, lemma2_to64_rest, lemma_pow2_adds, lemma_pow2_pos, lemma_pow2_strictly_increases,
    lemma_pow2_unfold, pow2,
};
use vstd::bits::{
    lemma_u64_low_bits_mask_is_mod, lemma_u64_shl_is_mul, lemma_u64_shr_is_div, low_bits_mask,
};
use vstd::prelude::*;
use vstd::std_specs::bits::u64_leading_zeros;

verus! {

/// Two to the power fifty-two: the implicit leading bit of a normal number.
pub const HIDDEN_BIT: u64 = 0x10_0000_0000_0000;

/// The largest biased exponent; it marks infinities and NaNs.
pub const EXPONENT_MAX: u64 = 0x7ff;

/// The distance between a number's biased exponent and the power of two
/// that scales its integer significand.
pub const EXPONENT_OFFSET: u64 = 1075;

/// Whether the sign bit is set.
pub open spec fn sign_bit(bits: u64) -> bool {
    bits >= 0x8000_0000_0000_0000
}

/// The eleven exponent bits, as a number.
pub open spec fn biased_exponent(bits: u64) -> nat {
    ((bits / 0x10_0000_0000_0000) % 0x800) as nat
}

/// The fifty-two fraction bits, as a number.
pub open spec fn fraction(bits: u64) -> nat {
    (bits % 0x10_0000_0000_0000) as nat
}

/// Neither an infinity nor a NaN.
pub open spec fn is_finite(bits: u64) -> bool {
    biased_exponent(bits) != 0x7ff
}

/// The integer significand `m` of a finite number `±m · 2^p`.
pub open spec fn significand(bits: u64) -> nat {
    if biased_exponent(bits) == 0 {
        fraction(bits)
    } else {
        fraction(bits) + 0x10_0000_0000_0000
    }
}

/// The power `p` of a finite number `±m · 2^p`.
pub open spec fn power(bits: u64) -> int {
    if biased_exponent(bits) == 0 {
        -1074
    } else {
        biased_exponent(bits) - 1075
    }
}

/// The pattern stands for a finite number without a fractional part.
pub open spec fn is_integral(bits: u64) -> bool {
    is_finite(bits) && (power(bits) >= 0 || significand(bits) % pow2((-power(bits)) as nat) == 0)
}

/// The absolute value of a finite number, rounded toward zero to an integer.
pub open spec fn magnitude(bits: u64) -> nat {
    if power(bits) >= 0 {
        significand(bits) * pow2(power(bits) as nat)
    } else {
        significand(bits) / pow2((-power(bits)) as nat)
    }
}

/// A finite number rounded toward zero to an integer. For an integral
/// pattern this is the number itself.
pub open spec fn integer_value(bits: u64) -> int {
    if sign_bit(bits) {
        -(magnitude(bits) as int)
    } else {
        magnitude(bits) as int
    }
}

/// The number of binary digits of `n`: the least `k` with `n < 2^k`.
pub open spec fn bit_length(n: nat) -> nat
    decreases n,
{
    if n == 0 {
        0
    } else {
        1 + bit_length(n / 2)
    }
}

/// The pattern of the positive normal number `significand · 2^(exponent - 1075)`,
/// for a significand from `2^52` to `2^53`. A significand of `2^53` carries
/// into the exponent.
pub open spec fn encode(exponent: nat, significand: nat) -> u64 {
    (exponent * 0x10_0000_0000_0000 + (significand - 0x10_0000_0000_0000)) as u64
}

/// The pattern of the number nearest to the natural number `m`, for `m`
/// below `2^64`. Up to 53 binary digits are kept as they are; a longer `m`
/// is rounded to 53 digits, and one that lies halfway between two
/// neighbours goes to the one whose last digit is even.
pub open spec fn from_magnitude(m: nat) -> u64 {
    let len = bit_length(m);
    if m == 0 {
        0
    } else if len <= 53 {
        encode(len + 1022, m * pow2((53 - len) as nat))
    } else {
        let unit = pow2((len - 53) as nat);
        let q = m / unit;
        let r = m % unit;
        if 2 * r > unit || (2 * r == unit && q % 2 == 1) {
            encode(len + 1022, q + 1)
        } else {
            encode(len + 1022, q)
        }
    }
}

/// The pattern of the number nearest to the integer `n`, for `n` of a
/// magnitude below `2^64`.
pub open spec fn from_integer(n: int) -> u64 {
    if n < 0 {
        (from_magnitude((-n) as nat) + 0x8000_0000_0000_0000) as u64
    } else {
        from_magnitude(n as nat)
    }
}

/// A positive `n` lies between the powers of two that its length names.
pub proof fn lemma_bit_length_bounds(n: nat)
    requires
        n > 0,
    ensures
        bit_length(n) >= 1,
        pow2((bit_length(n) - 1) as nat) <= n < pow2(bit_length(n)),
    decreases n,
{
    lemma2_to64();
    if n >= 2 {
        lemma_bit_length_bounds(n / 2);
        lemma_pow2_unfold(bit_length(n / 2));
        lemma_pow2_unfold(bit_length(n));
    } else {
        assert(bit_length(0) == 0);
        assert(bit_length(n) == 1 + bit_length(0));
    }
}

/// The length of a 64-bit number is what its leading zeros leave of 64.
pub proof fn lemma_leading_zeros(n: u64)
    ensures
        bit_length(n as nat) + u64_leading_zeros(n) == 64,
    decreases n,
{
    reveal(u64_leading_zeros);
    if n != 0 {
        lemma_leading_zeros(n / 2);
    }
}

/// Executable form of [`sign_bit`].
pub fn sign_of(bits: u64) -> (negative: bool)
    ensures
        negative == sign_bit(bits),
{
    bits >= 0x8000_0000_0000_0000
}

/// Executable form of [`biased_exponent`].
pub fn exponent_of(bits: u64) -> (e: u64)
    ensures
        e == biased_exponent(bits),
        e <= 0x7ff,
{
    assert((bits >> 52) & 0x7ff == (bits / 0x10_0000_0000_0000) % 0x800) by (bit_vector);
    (bits >> 52) & 0x7ff
}

/// Executable form of [`fraction`].
pub fn fraction_of(bits: u64) -> (f: u64)
    ensures
        f == fraction(bits),
        f < 0x10_0000_0000_0000,
{
    assert(bits & 0xf_ffff_ffff_ffff == bits % 0x10_0000_0000_0000) by (bit_vector);
    bits & 0xf_ffff_ffff_ffff
}

/// The integer that an integral pattern stands for, as sign and magnitude.
///
/// Returns `None` for the patterns that are not integral (NaNs, infinities
/// and numbers with a fractional part) and for the integers of a magnitude
/// of `2^64` or more, which 64 bits do not hold.
pub fn to_integer(bits: u64) -> (r: Option<(bool, u64)>)
    ensures
        r is Some <==> is_integral(bits) && magnitude(bits) <= u64::MAX,
        r matches Some((negative, m)) ==> negative == sign_bit(bits) && m == magnitude(bits),
{
    let negative: bool = sign_of(bits);
    let e: u64 = exponent_of(bits);
    let f: u64 = fraction_of(bits);
    proof {
        lemma2_to64();
        lemma2_to64_rest();
    }
    if e == EXPONENT_MAX {
        None
    } else if e == 0 {
        proof {
            lemma_pow2_strictly_increases(52, 1074);
            if f != 0 {
                lemma_small_mod(f as nat, pow2(1074));
            }
        }
        if f == 0 {
            Some((negative, 0))
        } else {
            None
        }
    } else {
        let sig: u64 = f + HIDDEN_BIT;
        if e >= EXPONENT_OFFSET {
            let shift: u64 = e - EXPONENT_OFFSET;
            if shift >= 12 {
                proof {
                    if shift > 12 {
                        lemma_pow2_strictly_increases(12, shift as nat);
                    }
                    assert(sig * pow2(shift as nat) >= 0x10_0000_0000_0000 * 0x1000)
                        by (nonlinear_arith)
                        requires
                            sig >= 0x10_0000_0000_0000,
                            pow2(shift as nat) >= 0x1000,
                    ;
                }
                None
            } else {
                proof {
                    if shift < 11 {
                        lemma_pow2_strictly_increases(shift as nat, 11);
                    }
                    assert(sig * pow2(shift as nat) <= 0x1f_ffff_ffff_ffff * 0x800)
                        by (nonlinear_arith)
                        requires
                            sig <= 0x1f_ffff_ffff_ffff,
                            pow2(shift as nat) <= 0x800,
                    ;
                    lemma_u64_shl_is_mul(sig, shift);
                }
                Some((negative, sig << shift))
            }
        } else {
            let shift: u64 = EXPONENT_OFFSET - e;
            if shift > 52 {
                proof {
                    if shift > 53 {
                        lemma_pow2_strictly_increases(53, shift as nat);
                    }
                    lemma_small_mod(sig as nat, pow2(shift as nat));
                }
                None
            } else {
                proof {
                    lemma_pow2_strictly_increases(shift as nat, 53);
                    lemma_u64_shl_is_mul(1, shift);
                    lemma_u64_low_bits_mask_is_mod(sig, shift as nat);
                    lemma_u64_shr_is_div(sig, shift);
                }
                let mask: u64 = (1u64 << shift) - 1;
                assert(mask == low_bits_mask(shift as nat));
                if sig & mask != 0 {
                    None
                } else {
                    Some((negative, sig >> shift))
                }
            }
        }
    }
}

/// The pattern of the number nearest to `n`: `n` itself where it has at
/// most 53 binary digits, else `n` rounded to 53 digits, halves to even.
pub fn from_u64(n: u64) -> (bits: u64)
    ensures
        bits == from_magnitude(n as nat),
        bits == from_integer(n as int),
        bits < 0x8000_0000_0000_0000,
{
    if n == 0 {
        return 0;
    }
    let zeros: u32 = n.leading_zeros();
    proof {
        lemma_leading_zeros(n);
        lemma_bit_length_bounds(n as nat);
        lemma2_to64();
        lemma2_to64_rest();
    }
    let len: u64 = 64 - (zeros as u64);
    let exponent: u64 = len + 1022;
    if len <= 53 {
        let shift: u64 = 53 - len;
        proof {
            lemma_pow2_adds(len as nat, shift as nat);
            lemma_pow2_adds((len - 1) as nat, shift as nat);
            lemma_pow2_pos(shift as nat);
            assert(n * pow2(shift as nat) < pow2(len as nat) * pow2(shift as nat))
                by (nonlinear_arith)
                requires
                    n < pow2(len as nat),
                    pow2(shift as nat) > 0,
            ;
            assert(n * pow2(shift as nat) >= pow2((len - 1) as nat) * pow2(shift as nat))
                by (nonlinear_arith)
                requires
                    n >= pow2((len - 1) as nat),
                    pow2(shift as nat) > 0,
            ;
            lemma_u64_shl_is_mul(n, shift);
        }
        let sig: u64 = n << shift;
        exponent * HIDDEN_BIT + (sig - HIDDEN_BIT)
    } else {
        let k: u64 = len - 53;
        proof {
            lemma_pow2_adds(52, k as nat);
            lemma_pow2_adds(53, k as nat);
            lemma_pow2_pos(k as nat);
            lemma_pow2_unfold(k as nat);
            if k < 11 {
                lemma_pow2_strictly_increases(k as nat, 11);
            }
            lemma_u64_shl_is_mul(1, k);
            lemma_u64_shr_is_div(n, k);
            lemma_u64_low_bits_mask_is_mod(n, k as nat);
        }
        let unit: u64 = 1u64 << k;
        let q: u64 = n >> k;
        let r: u64 = n & (unit - 1);
        let half: u64 = unit / 2;
        proof {
            assert(unit - 1 == low_bits_mask(k as nat));
            assert(q >= 0x10_0000_0000_0000) by {
                lemma_div_is_ordered(
                    pow2(52 + k as nat) as int,
                    n as int,
                    unit as int,
                );
                lemma_div_by_multiple(0x10_0000_0000_0000, unit as int);
            }
            assert(q < 0x20_0000_0000_0000) by {
                lemma_div_by_multiple_is_strongly_ordered(
                    n as int,
                    pow2(53 + k as nat) as int,
                    0x20_0000_0000_0000,
                    unit as int,
                );
                lemma_div_by_multiple(0x20_0000_0000_0000, unit as int);
            }
            assert(q & 1 == q % 2) by (bit_vector);
        }
        let up: bool = r > half || (r == half && q & 1 == 1);
        let sig: u64 = if up {
            q + 1
        } else {
            q
        };
        exponent * HIDDEN_BIT + (sig - HIDDEN_BIT)
    }
}

/// The pattern of the number nearest to `n`; see [`from_u64`].
pub fn from_i64(n: i64) -> (bits: u64)
    ensures
        bits == from_integer(n as int),
{
    if n >= 0 {
        from_u64(n as u64)
    } else if n == i64::MIN {
        from_u64(0x8000_0000_0000_0000) + 0x8000_0000_0000_0000
    } else {
        from_u64((-n) as u64) + 0x8000_0000_0000_0000
    }
}

} // verus!
