//! IEEE 754 binary32 numbers as 32-bit patterns, and how they widen to
//! binary64.
//!
//! A pattern is one sign bit, eight bits of biased exponent and
//! twenty-three bits of fraction.

use crate::binary64;
use crate::binary64::{bit_length, encode, lemma_bit_length_bounds, lemma_leading_zeros, HIDDEN_BIT};
use crate::rounding::{lemma_encode, lemma_sign_bit};
use vstd::arithmetic::power2::{
    lemma2_to64, lemma2_to64_rest, lemma_pow2_adds, lemma_pow2_pos, lemma_pow2_strictly_increases,
    pow2,
};
use vstd::bits::lemma_u64_shl_is_mul;
use vstd::prelude::*;

verus! {

/// Whether the sign bit is set.
pub open spec fn sign_bit(bits: u32) -> bool {
    bits >= 0x8000_0000
}

/// The eight exponent bits, as a number.
pub open spec fn biased_exponent(bits: u32) -> nat {
    ((bits / 0x80_0000) % 0x100) as nat
}

/// The twenty-three fraction bits, as a number.
pub open spec fn fraction(bits: u32) -> nat {
    (bits % 0x80_0000) as nat
}

/// The integer significand `m` of a finite number `±m · 2^p`.
pub open spec fn significand(bits: u32) -> nat {
    if biased_exponent(bits) == 0 {
        fraction(bits)
    } else {
        fraction(bits) + 0x80_0000
    }
}

/// The power `p` of a finite number `±m · 2^p`.
pub open spec fn power(bits: u32) -> int {
    if biased_exponent(bits) == 0 {
        -149
    } else {
        biased_exponent(bits) - 150
    }
}

/// The binary64 pattern of the number that a binary32 pattern stands for.
/// Every finite number and both infinities keep their value and sign; every
/// NaN becomes the quiet NaN without payload, with the sign it had.
pub open spec fn widened(bits: u32) -> u64 {
    let e = biased_exponent(bits);
    let f = fraction(bits);
    let sign: nat = if sign_bit(bits) {
        0x8000_0000_0000_0000
    } else {
        0
    };
    let rest: nat = if e == 0xff {
        if f == 0 {
            0x7ff0_0000_0000_0000
        } else {
            0x7ff8_0000_0000_0000
        }
    } else if e == 0 {
        if f == 0 {
            0
        } else {
            encode(bit_length(f) + 873, f * pow2((53 - bit_length(f)) as nat)) as nat
        }
    } else {
        (e + 896) * 0x10_0000_0000_0000 + f * 0x2000_0000
    };
    (sign + rest) as u64
}

/// Widens a binary32 pattern to the binary64 pattern of the same number.
pub fn widen(bits: u32) -> (wide: u64)
    ensures
        wide == widened(bits),
{
    assert((bits >> 23) & 0xff == (bits / 0x80_0000) % 0x100) by (bit_vector);
    assert(bits & 0x7f_ffff == bits % 0x80_0000) by (bit_vector);
    let e: u64 = ((bits >> 23) & 0xff) as u64;
    let f: u64 = (bits & 0x7f_ffff) as u64;
    let sign: u64 = if bits >= 0x8000_0000 {
        0x8000_0000_0000_0000
    } else {
        0
    };
    if e == 0xff {
        if f == 0 {
            sign + 0x7ff0_0000_0000_0000
        } else {
            sign + 0x7ff8_0000_0000_0000
        }
    } else if e == 0 {
        if f == 0 {
            sign
        } else {
            let zeros: u32 = f.leading_zeros();
            proof {
                lemma_leading_zeros(f);
                lemma_bit_length_bounds(f as nat);
                lemma2_to64();
                lemma2_to64_rest();
                if bit_length(f as nat) > 23 {
                    lemma_pow2_strictly_increases(23, (bit_length(f as nat) - 1) as nat);
                }
            }
            let len: u64 = 64 - (zeros as u64);
            let shift: u64 = 53 - len;
            proof {
                lemma_pow2_adds(len as nat, shift as nat);
                lemma_pow2_adds((len - 1) as nat, shift as nat);
                lemma_pow2_pos(shift as nat);
                assert(f * pow2(shift as nat) < pow2(len as nat) * pow2(shift as nat))
                    by (nonlinear_arith)
                    requires
                        f < pow2(len as nat),
                        pow2(shift as nat) > 0,
                ;
                assert(f * pow2(shift as nat) >= pow2((len - 1) as nat) * pow2(shift as nat))
                    by (nonlinear_arith)
                    requires
                        f >= pow2((len - 1) as nat),
                        pow2(shift as nat) > 0,
                ;
                lemma_u64_shl_is_mul(f, shift);
            }
            let sig: u64 = f << shift;
            sign + ((len + 873) * HIDDEN_BIT + (sig - HIDDEN_BIT))
        }
    } else {
        sign + ((e + 896) * HIDDEN_BIT + f * 0x2000_0000)
    }
}

/// Widening keeps the number.
///
/// The sign stays. An infinity stays an infinity and a NaN stays a NaN. A
/// finite number `m · 2^p` becomes a finite number `m' · 2^p'` of the same
/// value: both sides are compared after scaling by `2^1074`, which makes
/// them integers.
pub proof fn lemma_widened_value(bits: u32)
    ensures
        binary64::sign_bit(widened(bits)) == sign_bit(bits),
        biased_exponent(bits) == 0xff ==> {
            &&& !binary64::is_finite(widened(bits))
            &&& binary64::fraction(widened(bits)) == 0 <==> fraction(bits) == 0
        },
        biased_exponent(bits) != 0xff ==> {
            &&& binary64::is_finite(widened(bits))
            &&& binary64::significand(widened(bits)) * pow2(
                (binary64::power(widened(bits)) + 1074) as nat,
            ) == significand(bits) * pow2((power(bits) + 1074) as nat)
        },
{
    lemma2_to64();
    lemma2_to64_rest();
    let e = biased_exponent(bits);
    let f = fraction(bits);
    let w = widened(bits);
    let rest: u64 = if sign_bit(bits) {
        (w - 0x8000_0000_0000_0000) as u64
    } else {
        w
    };
    if e == 0xff {
        assert(rest == 0x7ff0_0000_0000_0000 || rest == 0x7ff8_0000_0000_0000);
        if sign_bit(bits) {
            lemma_sign_bit(rest);
        }
        assert(binary64::biased_exponent(w) == 0x7ff);
    } else if e == 0 {
        if f == 0 {
            assert(rest == 0);
            if sign_bit(bits) {
                lemma_sign_bit(rest);
            }
            assert(binary64::significand(w) == 0);
            assert(0 * pow2((binary64::power(w) + 1074) as nat) == 0 * pow2(925))
                by (nonlinear_arith);
        } else {
            lemma_bit_length_bounds(f);
            let len = bit_length(f);
            assert(len <= 23) by {
                if len > 23 {
                    lemma_pow2_strictly_increases(23, (len - 1) as nat);
                }
            }
            let shift = (53 - len) as nat;
            let sig = f * pow2(shift);
            lemma_pow2_adds(len, shift);
            lemma_pow2_adds((len - 1) as nat, shift);
            lemma_pow2_pos(shift);
            assert(sig < pow2(len) * pow2(shift)) by (nonlinear_arith)
                requires
                    sig == f * pow2(shift),
                    f < pow2(len),
                    pow2(shift) > 0,
            ;
            assert(sig >= pow2((len - 1) as nat) * pow2(shift)) by (nonlinear_arith)
                requires
                    sig == f * pow2(shift),
                    f >= pow2((len - 1) as nat),
                    pow2(shift) > 0,
            ;
            lemma_encode(len + 873, sig);
            assert(rest == encode(len + 873, sig));
            if sign_bit(bits) {
                lemma_sign_bit(rest);
                assert(binary64::biased_exponent(w) == binary64::biased_exponent(rest));
                assert(binary64::fraction(w) == binary64::fraction(rest));
            }
            assert(binary64::significand(w) == sig);
            assert(binary64::power(w) + 1074 == len + 872);
            lemma_pow2_adds(shift, len + 872);
            assert(sig * pow2(len + 872) == f * pow2(925)) by (nonlinear_arith)
                requires
                    sig == f * pow2(shift),
                    pow2(shift) * pow2(len + 872) == pow2(925),
            ;
        }
    } else {
        assert(rest == (e + 896) * 0x10_0000_0000_0000 + f * 0x2000_0000);
        assert(rest == encode(e + 896, f * 0x2000_0000 + 0x10_0000_0000_0000));
        lemma_encode(e + 896, f * 0x2000_0000 + 0x10_0000_0000_0000);
        if sign_bit(bits) {
            lemma_sign_bit(rest);
            assert(binary64::biased_exponent(w) == binary64::biased_exponent(rest));
            assert(binary64::fraction(w) == binary64::fraction(rest));
        }
        assert(binary64::significand(w) == (f + 0x80_0000) * pow2(29));
        assert(binary64::power(w) + 1074 == e + 895);
        lemma_pow2_adds(29, e + 895);
        assert((f + 0x80_0000) * pow2(29) * pow2(e + 895) == (f + 0x80_0000) * pow2(e + 924))
            by (nonlinear_arith)
            requires
                pow2(29) * pow2(e + 895) == pow2(e + 924),
        ;
    }
}

} // verus!
