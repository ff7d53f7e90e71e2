//! How near the pattern of an integer is to the integer.

use crate::binary64::{
    biased_exponent, bit_length, encode, fraction, from_integer, from_magnitude, integer_value,
    is_finite, is_integral, lemma_bit_length_bounds, magnitude, power, sign_bit, significand,
};
use vstd::arithmetic::div_mod::{
    lemma_basic_div, lemma_div_by_multiple, lemma_div_by_multiple_is_strongly_ordered,
    lemma_div_is_ordered, lemma_fundamental_div_mod, lemma_fundamental_div_mod_converse,
    lemma_mod_multiples_basic, lemma_small_mod,
};
use vstd::arithmetic::power2::{
    lemma2_to64, lemma2_to64_rest, lemma_pow2_adds, lemma_pow2_pos, lemma_pow2_strictly_increases,
    lemma_pow2_unfold, pow2,
};
use vstd::prelude::*;

verus! {

/// The distance between the numbers that binary64 can hold around the
/// natural number `m`: one up to `2^53`, and a power of two above.
pub open spec fn spacing(m: nat) -> nat {
    if bit_length(m) <= 53 {
        1
    } else {
        pow2((bit_length(m) - 53) as nat)
    }
}

/// What [`encode`] puts into a pattern is what the pattern's parts give back.
pub proof fn lemma_encode(exponent: nat, sig: nat)
    requires
        1 <= exponent <= 2046,
        0x10_0000_0000_0000 <= sig < 0x20_0000_0000_0000,
    ensures
        !sign_bit(encode(exponent, sig)),
        biased_exponent(encode(exponent, sig)) == exponent,
        fraction(encode(exponent, sig)) == sig - 0x10_0000_0000_0000,
        significand(encode(exponent, sig)) == sig,
        power(encode(exponent, sig)) == exponent - 1075,
        is_finite(encode(exponent, sig)),
{
    let low: int = sig - 0x10_0000_0000_0000;
    let b: int = exponent * 0x10_0000_0000_0000 + low;
    assert(b < 0x8000_0000_0000_0000);
    assert(b / 0x10_0000_0000_0000 == exponent && b % 0x10_0000_0000_0000 == low) by {
        lemma_fundamental_div_mod_converse(
            b,
            0x10_0000_0000_0000,
            exponent as int,
            low,
        );
    }
}

/// The number nearest to a natural number below `2^64`.
///
/// The pattern that [`from_magnitude`] gives stands for a non-negative
/// integer. That integer is a multiple of the spacing around `m`, lies at
/// most half a spacing from `m`, and where it lies exactly half a spacing
/// away it is an even multiple. Up to `2^53` the spacing is one, so the
/// integer is `m` itself.
pub proof fn lemma_from_magnitude_nearest(m: nat)
    requires
        m <= u64::MAX,
    ensures
        is_integral(from_magnitude(m)),
        !sign_bit(from_magnitude(m)),
        magnitude(from_magnitude(m)) % spacing(m) == 0,
        2 * (magnitude(from_magnitude(m)) - m) <= spacing(m),
        2 * (m - magnitude(from_magnitude(m))) <= spacing(m),
        2 * (magnitude(from_magnitude(m)) - m) == spacing(m) || 2 * (m - magnitude(
            from_magnitude(m),
        )) == spacing(m) ==> (magnitude(from_magnitude(m)) / spacing(m)) % 2 == 0,
{
    lemma2_to64();
    lemma2_to64_rest();
    let b = from_magnitude(m);
    if m == 0 {
        assert(b == 0);
        assert(bit_length(0) == 0);
        assert(biased_exponent(b) == 0 && fraction(b) == 0);
        lemma_pow2_pos(1074);
        assert(0nat % pow2(1074) == 0) by {
            lemma_small_mod(0, pow2(1074));
        }
        assert(0nat / pow2(1074) == 0) by {
            lemma_basic_div(0, pow2(1074) as int);
        }
    } else {
        lemma_bit_length_bounds(m);
        let len = bit_length(m);
        assert(len <= 64) by {
            if len > 64 {
                lemma_pow2_strictly_increases(64, (len - 1) as nat);
            }
        }
        if len <= 53 {
            let shift = (53 - len) as nat;
            let sig = m * pow2(shift);
            lemma_pow2_adds(len, shift);
            lemma_pow2_adds((len - 1) as nat, shift);
            lemma_pow2_pos(shift);
            assert(sig < pow2(len) * pow2(shift)) by (nonlinear_arith)
                requires
                    sig == m * pow2(shift),
                    m < pow2(len),
                    pow2(shift) > 0,
            ;
            assert(sig >= pow2((len - 1) as nat) * pow2(shift)) by (nonlinear_arith)
                requires
                    sig == m * pow2(shift),
                    m >= pow2((len - 1) as nat),
                    pow2(shift) > 0,
            ;
            lemma_encode(len + 1022, sig);
            assert(power(b) == -(shift as int));
            if shift == 0 {
                assert(sig == m && sig * pow2(0) == m) by (nonlinear_arith)
                    requires
                        sig == m * pow2(shift),
                        shift == 0,
                        pow2(0) == 1,
                ;
            } else {
                lemma_mod_multiples_basic(m as int, pow2(shift) as int);
                lemma_div_by_multiple(m as int, pow2(shift) as int);
            }
            assert(magnitude(b) == m);
        } else {
            let k = (len - 53) as nat;
            let unit = pow2(k);
            let q = m / unit;
            let r = m % unit;
            lemma_pow2_adds(52, k);
            lemma_pow2_adds(53, k);
            lemma_pow2_pos(k);
            lemma_pow2_unfold(k);
            lemma_fundamental_div_mod(m as int, unit as int);
            assert(q >= 0x10_0000_0000_0000) by {
                lemma_div_is_ordered(pow2(52 + k) as int, m as int, unit as int);
                lemma_div_by_multiple(0x10_0000_0000_0000, unit as int);
            }
            assert(q < 0x20_0000_0000_0000) by {
                lemma_div_by_multiple_is_strongly_ordered(
                    m as int,
                    pow2(53 + k) as int,
                    0x20_0000_0000_0000,
                    unit as int,
                );
                lemma_div_by_multiple(0x20_0000_0000_0000, unit as int);
            }
            let up = 2 * r > unit || (2 * r == unit && q % 2 == 1);
            let kept: nat = if up {
                q + 1
            } else {
                q
            };
            assert(b == encode(len + 1022, kept));
            lemma_pow2_unfold(k + 1);
            if kept == 0x20_0000_0000_0000 {
                assert(encode(len + 1022, kept) == encode(len + 1023, 0x10_0000_0000_0000));
                lemma_encode(len + 1023, 0x10_0000_0000_0000);
                assert(power(b) == k + 1);
                assert(magnitude(b) == 0x10_0000_0000_0000 * pow2(k + 1));
                assert(0x10_0000_0000_0000 * pow2(k + 1) == kept * unit) by (nonlinear_arith)
                    requires
                        kept == 0x20_0000_0000_0000,
                        pow2(k + 1) == 2 * unit,
                ;
            } else {
                lemma_encode(len + 1022, kept);
                assert(power(b) == k);
                assert(magnitude(b) == kept * unit);
            }
            let v = magnitude(b);
            assert(v == kept * unit);
            lemma_mod_multiples_basic(kept as int, unit as int);
            lemma_div_by_multiple(kept as int, unit as int);
            assert(m == unit * q + r);
            if up {
                assert(v - m == unit - r) by (nonlinear_arith)
                    requires
                        v == (q + 1) * unit,
                        m == unit * q + r,
                ;
            } else {
                assert(m - v == r) by (nonlinear_arith)
                    requires
                        v == q * unit,
                        m == unit * q + r,
                ;
            }
        }
    }
}

/// The sign bit changes the sign of a pattern's number and nothing else.
pub proof fn lemma_sign_bit(bits: u64)
    requires
        !sign_bit(bits),
    ensures
        sign_bit((bits + 0x8000_0000_0000_0000) as u64),
        is_integral((bits + 0x8000_0000_0000_0000) as u64) == is_integral(bits),
        magnitude((bits + 0x8000_0000_0000_0000) as u64) == magnitude(bits),
        integer_value((bits + 0x8000_0000_0000_0000) as u64) == -integer_value(bits),
{
    let flipped = (bits + 0x8000_0000_0000_0000) as u64;
    assert(biased_exponent(flipped) == biased_exponent(bits));
    assert(fraction(flipped) == fraction(bits));
}

/// The number nearest to an integer of a magnitude below `2^64`.
///
/// The pattern that [`from_integer`] gives stands for an integer with the
/// sign of `n`, whose magnitude is the one that [`from_magnitude`] gives for
/// the magnitude of `n`; [`lemma_from_magnitude_nearest`] says how near
/// that is. Up to a magnitude of `2^53` the integer is `n` itself.
pub proof fn lemma_from_integer_nearest(n: int)
    requires
        -(u64::MAX as int) <= n <= u64::MAX,
    ensures
        is_integral(from_integer(n)),
        n >= 0 ==> integer_value(from_integer(n)) == magnitude(from_magnitude(n as nat)),
        n < 0 ==> integer_value(from_integer(n)) == -magnitude(from_magnitude((-n) as nat)),
        -0x20_0000_0000_0000 <= n <= 0x20_0000_0000_0000 ==> integer_value(from_integer(n)) == n,
{
    lemma2_to64();
    lemma2_to64_rest();
    let m: nat = if n < 0 {
        (-n) as nat
    } else {
        n as nat
    };
    lemma_from_magnitude_nearest(m);
    if n < 0 {
        lemma_sign_bit(from_magnitude(m));
    }
    if m <= 0x20_0000_0000_0000 {
        if m > 0 {
            lemma_bit_length_bounds(m);
            if bit_length(m) > 54 {
                lemma_pow2_strictly_increases(54, (bit_length(m) - 1) as nat);
            }
            if bit_length(m) == 54 {
                assert(m == 0x20_0000_0000_0000);
                assert(spacing(m) == 2);
                assert(magnitude(from_magnitude(m)) == m);
            }
        } else {
            assert(bit_length(0) == 0);
        }
        assert(magnitude(from_magnitude(m)) == m);
    }
}

/// The length of a positive number is the one power of two range it lies in.
pub proof fn lemma_bit_length_unique(m: nat, len: nat)
    requires
        len >= 1,
        pow2((len - 1) as nat) <= m < pow2(len),
    ensures
        bit_length(m) == len,
{
    lemma_pow2_pos((len - 1) as nat);
    lemma_bit_length_bounds(m);
    let actual = bit_length(m);
    if actual < len {
        if actual < len - 1 {
            lemma_pow2_strictly_increases(actual, (len - 1) as nat);
        }
    } else if actual > len {
        if actual - 1 > len {
            lemma_pow2_strictly_increases(len, (actual - 1) as nat);
        }
    }
}

/// A pattern without sign that stands for a natural number below `2^64`
/// is the pattern that [`from_magnitude`] gives for that number.
pub proof fn lemma_magnitude_returns(bits: u64)
    requires
        is_integral(bits),
        !sign_bit(bits),
        magnitude(bits) <= u64::MAX,
    ensures
        from_magnitude(magnitude(bits)) == bits,
{
    lemma2_to64();
    lemma2_to64_rest();
    let e = biased_exponent(bits);
    let sig = significand(bits);
    let m = magnitude(bits);
    assert(bits == e * 0x10_0000_0000_0000 + fraction(bits)) by {
        lemma_fundamental_div_mod(bits as int, 0x10_0000_0000_0000);
    }
    if e == 0 {
        lemma_pow2_strictly_increases(52, 1074);
        if sig != 0 {
            lemma_small_mod(sig, pow2(1074));
        }
        assert(sig == 0);
        assert(m == 0) by {
            lemma_basic_div(0, pow2(1074) as int);
        }
        assert(bit_length(0) == 0);
    } else {
        assert(bits == encode(e, sig));
        if e >= 1075 {
            let p = (e - 1075) as nat;
            lemma_pow2_pos(p);
            assert(p <= 11) by {
                if p >= 12 {
                    if p > 12 {
                        lemma_pow2_strictly_increases(12, p);
                    }
                    assert(sig * pow2(p) >= 0x10_0000_0000_0000 * 0x1000) by (nonlinear_arith)
                        requires
                            sig >= 0x10_0000_0000_0000,
                            pow2(p) >= 0x1000,
                    ;
                }
            }
            lemma_pow2_adds(52, p);
            lemma_pow2_adds(53, p);
            assert(pow2(52) * pow2(p) <= m < pow2(53) * pow2(p)) by (nonlinear_arith)
                requires
                    m == sig * pow2(p),
                    pow2(52) <= sig < pow2(53),
                    pow2(p) > 0,
            ;
            lemma_bit_length_unique(m, 53 + p);
            if p == 0 {
                assert(m == sig && m * pow2(0) == sig) by (nonlinear_arith)
                    requires
                        m == sig * pow2(p),
                        p == 0,
                        pow2(0) == 1,
                ;
            } else {
                lemma_div_by_multiple(sig as int, pow2(p) as int);
                lemma_mod_multiples_basic(sig as int, pow2(p) as int);
            }
        } else {
            let s = (1075 - e) as nat;
            lemma_pow2_pos(s);
            assert(s <= 52) by {
                if s >= 53 {
                    if s > 53 {
                        lemma_pow2_strictly_increases(53, s);
                    }
                    lemma_small_mod(sig, pow2(s));
                }
            }
            let rest = (52 - s) as nat;
            lemma_pow2_adds(rest, s);
            lemma_pow2_adds(rest + 1, s);
            lemma_fundamental_div_mod(sig as int, pow2(s) as int);
            assert(sig == pow2(s) * m);
            assert(pow2(rest) <= m < pow2(rest + 1)) by (nonlinear_arith)
                requires
                    sig == pow2(s) * m,
                    pow2(rest) * pow2(s) <= sig < pow2(rest + 1) * pow2(s),
                    pow2(s) > 0,
            ;
            lemma_bit_length_unique(m, rest + 1);
            assert(m * pow2(s) == sig) by (nonlinear_arith)
                requires
                    sig == pow2(s) * m,
            ;
        }
    }
}

} // verus!
