use vstd::prelude::*;

use core::cmp::Ordering;
use vstd::arithmetic::div_mod::{lemma_fundamental_div_mod, lemma_mod_bound};
use vstd::arithmetic::mul::{
    lemma_mul_inequality, lemma_mul_is_associative, lemma_mul_strict_inequality,
};
use vstd::arithmetic::power2::{
    lemma2_to64, lemma2_to64_rest, lemma_pow2_adds, lemma_pow2_pos,
    lemma_pow2_strictly_increases, lemma_pow2_unfold, pow2,
};
use vstd::bits::{lemma_u64_shl_is_mul, lemma_u64_shr_is_div};

use crate::value::Number;

verus! {

/// Three-way comparison of two mathematical integers.
pub open spec fn int_cmp(a: int, b: int) -> Ordering {
    if a < b {
        Ordering::Less
    } else if a == b {
        Ordering::Equal
    } else {
        Ordering::Greater
    }
}

/// The sign bit of a double's bit pattern.
pub open spec fn f_sign(b: u64) -> bool {
    b >> 63 == 1
}

/// The biased exponent field of a double's bit pattern.
pub open spec fn f_exp(b: u64) -> u64 {
    (b >> 52) & 0x7ff
}

/// The fraction field of a double's bit pattern.
pub open spec fn f_frac(b: u64) -> u64 {
    b & 0xf_ffff_ffff_ffff
}

/// A finite double: the exponent field is not all ones (else the pattern
/// means an infinity or a NaN, which a JSON number never holds).
pub open spec fn f_finite(b: u64) -> bool {
    f_exp(b) != 0x7ff
}

pub open spec fn f_is_nan(b: u64) -> bool {
    f_exp(b) == 0x7ff && f_frac(b) != 0
}

pub open spec fn f_is_inf(b: u64) -> bool {
    f_exp(b) == 0x7ff && f_frac(b) == 0
}

/// The full significand: the fraction with the implicit leading bit where
/// the value is normal.
pub open spec fn f_mant(b: u64) -> u64 {
    if f_exp(b) == 0 {
        f_frac(b)
    } else {
        (f_frac(b) + 0x10_0000_0000_0000) as u64
    }
}

/// The effective exponent: subnormals share the exponent of the smallest
/// normal values.
pub open spec fn f_eexp(b: u64) -> u64 {
    if f_exp(b) == 0 {
        1
    } else {
        f_exp(b)
    }
}

/// The exact value of a finite double, scaled by 2^1074 so that every
/// finite double is an integer: (-1)^sign * mant * 2^(eexp - 1075) * 2^1074.
pub open spec fn float_val(b: u64) -> int {
    let mag = f_mant(b) * pow2((f_eexp(b) - 1) as nat);
    if f_sign(b) {
        -mag
    } else {
        mag
    }
}

/// Whether a number's double representation, if that is what it holds, is
/// finite.  Integer numbers always are.
pub open spec fn number_finite(n: Number) -> bool {
    match n {
        Number::Float(b) => f_finite(b),
        _ => true,
    }
}

/// A well-formed number: a double's bits are finite, and the negative
/// variant holds a negative value — both as a JSON document guarantees.
pub open spec fn number_wf(n: Number) -> bool {
    &&& number_finite(n)
    &&& match n {
        Number::NegInt(i) => i < 0,
        _ => true,
    }
}

/// The number of binary digits of a number; zero has none.
pub open spec fn bit_len(m: nat) -> nat
    decreases m,
{
    if m == 0 {
        0
    } else {
        bit_len(m / 2) + 1
    }
}

/// The value of the double nearest to an integer, ties going to the even
/// significand: an integer below 2^53 is its own double; above, the
/// binary digits beyond the 53rd round away.
pub open spec fn round_to_double(m: nat) -> nat {
    if m < 0x20_0000_0000_0000 {
        m
    } else {
        let shift = (bit_len(m) - 53) as nat;
        let q = m / pow2(shift);
        let r = m % pow2(shift);
        let half = pow2((shift - 1) as nat);
        let q2: nat = if r > half || (r == half && q % 2 == 1) {
            q + 1
        } else {
            q
        };
        q2 * pow2(shift)
    }
}

/// The signed-integer form of a number, where it has one.
pub open spec fn num_as_i64(n: Number) -> Option<int> {
    match n {
        Number::PosInt(u) => if u <= i64::MAX {
            Some(u as int)
        } else {
            None
        },
        Number::NegInt(i) => Some(i as int),
        Number::Float(_) => None,
    }
}

/// The unsigned-integer form of a number, where it has one.
pub open spec fn num_as_u64(n: Number) -> Option<int> {
    match n {
        Number::PosInt(u) => Some(u as int),
        _ => None,
    }
}

/// The exact value, scaled by 2^1074, of the double a number converts to:
/// an integer rounds to the nearest double, a double is itself.
pub open spec fn num_f64_val(n: Number) -> int {
    match n {
        Number::PosInt(u) => round_to_double(u as nat) * pow2(1074) as int,
        Number::NegInt(i) => if i >= 0 {
            round_to_double(i as nat) * pow2(1074) as int
        } else {
            -(round_to_double((-i) as nat) * pow2(1074) as int)
        },
        Number::Float(b) => float_val(b),
    }
}

/// How two numbers compare: by signed-integer extraction where both have
/// it, else by unsigned-integer extraction, else by their double views —
/// in that preference order, for maximum precision.
pub open spec fn spec_cmp_numbers(a: Number, b: Number) -> Ordering {
    if num_as_i64(a) is Some && num_as_i64(b) is Some {
        int_cmp(num_as_i64(a).unwrap(), num_as_i64(b).unwrap())
    } else if num_as_u64(a) is Some && num_as_u64(b) is Some {
        int_cmp(num_as_u64(a).unwrap(), num_as_u64(b).unwrap())
    } else {
        int_cmp(num_f64_val(a), num_f64_val(b))
    }
}

proof fn lemma_bit_len_bounds(m: nat)
    requires
        m >= 1,
    ensures
        bit_len(m) >= 1,
        pow2((bit_len(m) - 1) as nat) <= m < pow2(bit_len(m)),
    decreases m,
{
    if m / 2 == 0 {
        lemma2_to64();
        assert(bit_len(m) == 1) by {
            reveal_with_fuel(bit_len, 3);
        }
    } else {
        lemma_bit_len_bounds(m / 2);
        lemma_pow2_unfold(bit_len(m));
        lemma_pow2_unfold((bit_len(m) - 1) as nat);
        lemma_fundamental_div_mod(m as int, 2);
        lemma_mod_bound(m as int, 2);
        assert(m == 2 * (m / 2) + m % 2);
        assert(pow2((bit_len(m) - 1) as nat) == 2 * pow2((bit_len(m / 2) - 1) as nat));
        assert(pow2(bit_len(m)) == 2 * pow2(bit_len(m / 2)));
    }
}

/// Rounding a positive integer gives a positive double.
proof fn lemma_round_to_double_pos(m: nat)
    requires
        m >= 1,
    ensures
        round_to_double(m) >= 1,
{
    if m >= 0x20_0000_0000_0000 {
        lemma_bit_len_bounds(m);
        lemma2_to64();
        lemma2_to64_rest();
        let shift = (bit_len(m) - 53) as nat;
        assert(bit_len(m) > 53) by {
            if bit_len(m) <= 53 {
                if bit_len(m) < 53 {
                    lemma_pow2_strictly_increases(bit_len(m), 53);
                }
                assert(m < pow2(53));
            }
        }
        assert(pow2(shift) <= pow2((bit_len(m) - 1) as nat)) by {
            if shift < bit_len(m) - 1 {
                lemma_pow2_strictly_increases(shift, (bit_len(m) - 1) as nat);
            }
        }
        lemma_pow2_pos(shift);
        lemma_fundamental_div_mod(m as int, pow2(shift) as int);
        lemma_mod_bound(m as int, pow2(shift) as int);
        let q = m / pow2(shift);
        assert(q >= 1) by (nonlinear_arith)
            requires
                m == pow2(shift) * (m as int / pow2(shift) as int) + m as int % pow2(shift) as int,
                q == m as int / pow2(shift) as int,
                m as int % pow2(shift) as int >= 0,
                (m as int % pow2(shift) as int) < pow2(shift),
                m >= pow2(shift),
        ;
        lemma_mul_inequality(q as int, q as int + 1, pow2(shift) as int);
        assert(round_to_double(m) >= q * pow2(shift));
        lemma_mul_inequality(1, q as int, pow2(shift) as int);
    }
}

/// The double nearest to a machine integer, as a normalized significand
/// and effective exponent: the value rounded to is significand times
/// 2^(exponent - 1075).
fn int_to_double_parts(m: u64) -> (r: (u64, u64))
    requires
        m >= 1,
    ensures
        0x10_0000_0000_0000 <= r.0 < 0x20_0000_0000_0000,
        1023 <= r.1 <= 1087,
        r.0 * pow2((r.1 - 1) as nat) == round_to_double(m as nat) * pow2(1074),
{
    proof {
        lemma2_to64();
        lemma2_to64_rest();
        lemma_bit_len_bounds(m as nat);
        assert(bit_len(m as nat) <= 64) by {
            if bit_len(m as nat) > 64 {
                if 64 < bit_len(m as nat) - 1 {
                    lemma_pow2_strictly_increases(64, (bit_len(m as nat) - 1) as nat);
                }
                assert(pow2((bit_len(m as nat) - 1) as nat) >= pow2(64));
            }
        }
    }
    let mut len: u64 = 0;
    let mut t = m;
    loop
        invariant
            bit_len(m as nat) == len + bit_len(t as nat),
            1 <= bit_len(m as nat) <= 64,
        ensures
            len == bit_len(m as nat),
            1 <= len <= 64,
        decreases t,
    {
        if t == 0 {
            break ;
        }
        t = t / 2;
        len = len + 1;
    }
    if len <= 53 {
        let sh = 53 - len;
        proof {
            assert(pow2(len as nat) <= pow2(53)) by {
                if len < 53 {
                    lemma_pow2_strictly_increases(len as nat, 53);
                }
            }
            assert(round_to_double(m as nat) == m);
            lemma_pow2_pos(sh as nat);
            lemma_pow2_adds((len - 1) as nat, sh as nat);
            lemma_pow2_adds(len as nat, sh as nat);
            lemma_mul_strict_inequality(m as int, pow2(len as nat) as int, pow2(sh as nat) as int);
            lemma_mul_inequality(
                pow2((len - 1) as nat) as int,
                m as int,
                pow2(sh as nat) as int,
            );
            assert(pow2((len - 1) as nat) * pow2(sh as nat) == pow2(52));
            assert(pow2(len as nat) * pow2(sh as nat) == pow2(53));
            lemma_u64_shl_is_mul(m, sh);
        }
        let mant = m << sh;
        let eexp = 1075 - sh;
        proof {
            lemma_pow2_adds(sh as nat, (1074 - sh) as nat);
            lemma_mul_is_associative(
                m as int,
                pow2(sh as nat) as int,
                pow2((1074 - sh) as nat) as int,
            );
            assert(eexp - 1 == 1074 - sh);
        }
        (mant, eexp)
    } else {
        let sh = len - 53;
        proof {
            lemma_pow2_pos(sh as nat);
            lemma_u64_shr_is_div(m, sh);
        }
        let q = m >> sh;
        proof {
            lemma_fundamental_div_mod(m as int, pow2(sh as nat) as int);
            lemma_mod_bound(m as int, pow2(sh as nat) as int);
            lemma_pow2_adds(sh as nat, 52);
            lemma_pow2_adds(sh as nat, 53);
            assert(pow2((len - 1) as nat) == pow2(sh as nat) * pow2(52));
            assert(pow2(len as nat) == pow2(sh as nat) * pow2(53));
            assert(0x10_0000_0000_0000 <= q < 0x20_0000_0000_0000) by (nonlinear_arith)
                requires
                    m == pow2(sh as nat) * (m as int / pow2(sh as nat) as int) + m as int % pow2(
                        sh as nat,
                    ) as int,
                    q == m as int / pow2(sh as nat) as int,
                    m as int % pow2(sh as nat) as int >= 0,
                    (m as int % pow2(sh as nat) as int) < pow2(sh as nat),
                    pow2(sh as nat) * pow2(52) <= m,
                    m < pow2(sh as nat) * pow2(53),
                    pow2(sh as nat) >= 1,
                    pow2(52) == 0x10_0000_0000_0000,
                    pow2(53) == 0x20_0000_0000_0000,
            ;
            assert(q * pow2(sh as nat) <= m) by (nonlinear_arith)
                requires
                    m == pow2(sh as nat) * (m as int / pow2(sh as nat) as int) + m as int % pow2(
                        sh as nat,
                    ) as int,
                    q == m as int / pow2(sh as nat) as int,
                    m as int % pow2(sh as nat) as int >= 0,
            ;
            lemma_u64_shl_is_mul(q, sh);
        }
        let qs = q << sh;
        let rem = m - qs;
        proof {
            assert(rem == m as int % pow2(sh as nat) as int);
            assert(pow2((sh - 1) as nat) <= pow2(10)) by {
                if sh - 1 < 10 {
                    lemma_pow2_strictly_increases((sh - 1) as nat, 10);
                }
            }
            lemma_u64_shl_is_mul(1u64, (sh - 1) as u64);
        }
        let half = 1u64 << (sh - 1);
        let roundup = rem > half || (rem == half && (q & 1u64) == 1);
        proof {
            assert(q & 1u64 == q % 2) by (bit_vector);
            // the spec's rounding takes the same branch
            assert(m >= 0x20_0000_0000_0000) by {
                assert(pow2(53) <= pow2((len - 1) as nat)) by {
                    if 53 < len - 1 {
                        lemma_pow2_strictly_increases(53, (len - 1) as nat);
                    }
                }
            }
            assert(half == pow2((sh - 1) as nat));
        }
        let q2 = if roundup {
            q + 1
        } else {
            q
        };
        proof {
            assert(round_to_double(m as nat) == q2 * pow2(sh as nat));
        }
        if q2 == 0x20_0000_0000_0000 {
            let eexp = 1076 + sh;
            proof {
                lemma_pow2_unfold((sh + 1) as nat);
                lemma_pow2_adds((sh + 1) as nat, 1074);
                assert((eexp - 1) == sh + 1 + 1074);
                assert(0x10_0000_0000_0000 * pow2((eexp - 1) as nat) == q2 * pow2(sh as nat)
                    * pow2(1074)) by (nonlinear_arith)
                    requires
                        q2 == 0x20_0000_0000_0000,
                        pow2((eexp - 1) as nat) == pow2((sh + 1) as nat) * pow2(1074),
                        pow2((sh + 1) as nat) == 2 * pow2(sh as nat),
                ;
                lemma_mul_is_associative(q2 as int, pow2(sh as nat) as int, pow2(1074) as int);
            }
            (0x10_0000_0000_0000, eexp)
        } else {
            let eexp = 1075 + sh;
            proof {
                lemma_pow2_adds(sh as nat, 1074);
                lemma_mul_is_associative(q2 as int, pow2(sh as nat) as int, pow2(1074) as int);
                assert((eexp - 1) == sh + 1074);
            }
            (q2, eexp)
        }
    }
}

/// Scaling both sides by a positive factor does not change a comparison.
proof fn lemma_int_cmp_scale(a: int, b: int, s: int)
    requires
        s > 0,
    ensures
        int_cmp(a * s, b * s) == int_cmp(a, b),
{
    if a < b {
        lemma_mul_strict_inequality(a, b, s);
    } else if b < a {
        lemma_mul_strict_inequality(b, a, s);
    }
}

/// Decodes a double's bit pattern into sign, significand and effective
/// exponent, with the ranges every finite pattern obeys.
fn f_decode(b: u64) -> (r: (bool, u64, u64))
    requires
        f_finite(b),
    ensures
        r.0 == f_sign(b),
        r.1 == f_mant(b),
        r.2 == f_eexp(b),
        r.1 < 0x20_0000_0000_0000,
        1 <= r.2 <= 2046,
        r.2 >= 2 ==> r.1 >= 0x10_0000_0000_0000,
{
    let sign = (b >> 63u64) == 1;
    let exp = (b >> 52u64) & 0x7ff;
    let frac = b & 0xf_ffff_ffff_ffff;
    proof {
        assert((b >> 52u64) & 0x7ff <= 0x7ff) by (bit_vector);
        assert(b & 0xf_ffff_ffff_ffff <= 0xf_ffff_ffff_ffff) by (bit_vector);
    }
    if exp == 0 {
        (sign, frac, 1)
    } else {
        (sign, frac + 0x10_0000_0000_0000, exp)
    }
}

/// Compares the magnitudes of two finite doubles given as significand and
/// effective exponent.
fn cmp_mag_floats(m1: u64, e1: u64, m2: u64, e2: u64) -> (r: Ordering)
    requires
        m1 >= 1,
        m2 >= 1,
        m1 < 0x20_0000_0000_0000,
        m2 < 0x20_0000_0000_0000,
        1 <= e1 <= 2046,
        1 <= e2 <= 2046,
        e1 >= 2 ==> m1 >= 0x10_0000_0000_0000,
        e2 >= 2 ==> m2 >= 0x10_0000_0000_0000,
    ensures
        r == int_cmp(m1 * pow2((e1 - 1) as nat), m2 * pow2((e2 - 1) as nat)),
{
    proof {
        lemma2_to64();
        lemma2_to64_rest();
        lemma_pow2_pos((e1 - 1) as nat);
        lemma_pow2_pos((e2 - 1) as nat);
    }
    if e1 == e2 {
        proof {
            lemma_int_cmp_scale(m1 as int, m2 as int, pow2((e1 - 1) as nat) as int);
        }
        if m1 < m2 {
            Ordering::Less
        } else if m1 == m2 {
            Ordering::Equal
        } else {
            Ordering::Greater
        }
    } else if e1 < e2 {
        proof {
            lemma_mul_strict_inequality(m1 as int, pow2(53) as int, pow2((e1 - 1) as nat) as int);
            lemma_pow2_adds(53, (e1 - 1) as nat);
            if 53 + e1 - 1 < 52 + e2 - 1 {
                lemma_pow2_strictly_increases((53 + e1 - 1) as nat, (52 + e2 - 1) as nat);
            }
            lemma_pow2_adds(52, (e2 - 1) as nat);
            lemma_mul_inequality(pow2(52) as int, m2 as int, pow2((e2 - 1) as nat) as int);
        }
        Ordering::Less
    } else {
        proof {
            lemma_mul_strict_inequality(m2 as int, pow2(53) as int, pow2((e2 - 1) as nat) as int);
            lemma_pow2_adds(53, (e2 - 1) as nat);
            if 53 + e2 - 1 < 52 + e1 - 1 {
                lemma_pow2_strictly_increases((53 + e2 - 1) as nat, (52 + e1 - 1) as nat);
            }
            lemma_pow2_adds(52, (e1 - 1) as nat);
            lemma_mul_inequality(pow2(52) as int, m1 as int, pow2((e1 - 1) as nat) as int);
        }
        Ordering::Greater
    }
}

/// The opposite of an ordering.
pub open spec fn spec_reverse(o: Ordering) -> Ordering {
    match o {
        Ordering::Less => Ordering::Greater,
        Ordering::Equal => Ordering::Equal,
        Ordering::Greater => Ordering::Less,
    }
}

pub(crate) fn reverse(o: Ordering) -> (r: Ordering)
    ensures
        r == spec_reverse(o),
{
    match o {
        Ordering::Less => Ordering::Greater,
        Ordering::Equal => Ordering::Equal,
        Ordering::Greater => Ordering::Less,
    }
}

/// Compares the double nearest a signed integer -- `-umag` where `neg`,
/// else `umag` -- with a finite double, by the doubles' exact values.
fn cmp_rounded_int_float(neg: bool, umag: u64, fb: u64) -> (r: Ordering)
    requires
        f_finite(fb),
        neg ==> umag >= 1,
    ensures
        r == int_cmp(
            if neg {
                -(round_to_double(umag as nat) * pow2(1074) as int)
            } else {
                round_to_double(umag as nat) * pow2(1074) as int
            },
            float_val(fb),
        ),
{
    proof {
        lemma_pow2_pos(1074);
    }
    let (fneg, mant2, eexp2) = f_decode(fb);
    let ghost fv = float_val(fb);
    proof {
        lemma_pow2_pos((eexp2 - 1) as nat);
        if mant2 >= 1 {
            lemma_mul_inequality(1, mant2 as int, pow2((eexp2 - 1) as nat) as int);
        }
        assert(mant2 == f_mant(fb));
        assert(eexp2 == f_eexp(fb));
    }
    if umag == 0 {
        // zero rounds to zero; the double's sign decides unless it is zero
        proof {
            assert(round_to_double(0) == 0);
            assert(round_to_double(umag as nat) * pow2(1074) as int == 0) by (nonlinear_arith)
                requires
                    round_to_double(umag as nat) == 0,
            ;
        }
        if mant2 == 0 {
            proof {
                assert(f_mant(fb) * pow2((f_eexp(fb) - 1) as nat) == 0) by (nonlinear_arith)
                    requires
                        f_mant(fb) == 0,
                ;
                assert(fv == 0);
            }
            Ordering::Equal
        } else if fneg {
            proof {
                assert(fv < 0);
            }
            Ordering::Greater
        } else {
            proof {
                assert(fv > 0);
            }
            Ordering::Less
        }
    } else {
        let (mant1, eexp1) = int_to_double_parts(umag);
        let ghost rv = round_to_double(umag as nat) * pow2(1074) as int;
        proof {
            lemma_pow2_pos((eexp1 - 1) as nat);
            lemma_mul_inequality(1, mant1 as int, pow2((eexp1 - 1) as nat) as int);
            assert(rv == mant1 * pow2((eexp1 - 1) as nat));
            assert(rv > 0);
        }
        if mant2 == 0 {
            // the double is zero (of either sign); the integer's sign decides
            proof {
                assert(f_mant(fb) * pow2((f_eexp(fb) - 1) as nat) == 0) by (nonlinear_arith)
                    requires
                        f_mant(fb) == 0,
                ;
                assert(fv == 0);
            }
            if neg {
                Ordering::Less
            } else {
                Ordering::Greater
            }
        } else if neg != fneg {
            proof {
                assert(mant2 * pow2((eexp2 - 1) as nat) > 0);
            }
            if neg {
                proof {
                    assert(fv > 0);
                }
                Ordering::Less
            } else {
                proof {
                    assert(fv < 0);
                }
                Ordering::Greater
            }
        } else {
            let c = cmp_mag_floats(mant1, eexp1, mant2, eexp2);
            proof {
                assert(c == int_cmp(
                    mant1 * pow2((eexp1 - 1) as nat),
                    mant2 * pow2((eexp2 - 1) as nat),
                ));
                if neg {
                    assert(fv == -(mant2 * pow2((eexp2 - 1) as nat)));
                    assert(int_cmp(-rv, fv) == spec_reverse(c));
                }
            }
            if neg {
                reverse(c)
            } else {
                c
            }
        }
    }
}

/// Compares two numbers the way the original representation ladder does:
/// by signed-integer extraction where both sides have it, else by
/// unsigned-integer extraction, else by the values of their double views,
/// where an integer beyond the double's precision rounds first.
pub fn cmp_number(a: &Number, b: &Number) -> (r: Ordering)
    requires
        number_wf(*a),
        number_wf(*b),
    ensures
        r == spec_cmp_numbers(*a, *b),
{
    proof {
        lemma_pow2_pos(1074);
    }
    match (a, b) {
        (Number::PosInt(x), Number::PosInt(y)) => {
            if x < y {
                Ordering::Less
            } else if x == y {
                Ordering::Equal
            } else {
                Ordering::Greater
            }
        },
        (Number::NegInt(x), Number::NegInt(y)) => {
            if x < y {
                Ordering::Less
            } else if x == y {
                Ordering::Equal
            } else {
                Ordering::Greater
            }
        },
        (Number::PosInt(x), Number::NegInt(y)) => {
            // the right side is negative, so the left is greater on
            // whichever rung the ladder settles
            proof {
                if *x > i64::MAX as u64 {
                    lemma_round_to_double_pos(*x as nat);
                    lemma_round_to_double_pos((-(*y as int)) as nat);
                    lemma_mul_inequality(
                        1,
                        round_to_double(*x as nat) as int,
                        pow2(1074) as int,
                    );
                    lemma_mul_inequality(
                        1,
                        round_to_double((-(*y as int)) as nat) as int,
                        pow2(1074) as int,
                    );
                }
            }
            Ordering::Greater
        },
        (Number::NegInt(x), Number::PosInt(y)) => {
            proof {
                if *y > i64::MAX as u64 {
                    lemma_round_to_double_pos(*y as nat);
                    lemma_round_to_double_pos((-(*x as int)) as nat);
                    lemma_mul_inequality(
                        1,
                        round_to_double(*y as nat) as int,
                        pow2(1074) as int,
                    );
                    lemma_mul_inequality(
                        1,
                        round_to_double((-(*x as int)) as nat) as int,
                        pow2(1074) as int,
                    );
                }
            }
            Ordering::Less
        },
        (Number::PosInt(x), Number::Float(q)) => cmp_rounded_int_float(false, *x, *q),
        (Number::NegInt(x), Number::Float(q)) => cmp_rounded_int_float(
            true,
            neg_magnitude(*x),
            *q,
        ),
        (Number::Float(p), Number::PosInt(y)) => {
            let c = cmp_rounded_int_float(false, *y, *p);
            proof {
                assert(int_cmp(num_f64_val(*a), num_f64_val(*b)) == spec_reverse(c));
            }
            reverse(c)
        },
        (Number::Float(p), Number::NegInt(y)) => {
            let c = cmp_rounded_int_float(true, neg_magnitude(*y), *p);
            proof {
                assert(int_cmp(num_f64_val(*a), num_f64_val(*b)) == spec_reverse(c));
            }
            reverse(c)
        },
        (Number::Float(p), Number::Float(q)) => {
            let (n1, m1, e1) = f_decode(*p);
            let (n2, m2, e2) = f_decode(*q);
            proof {
                lemma_pow2_pos((e1 - 1) as nat);
                lemma_pow2_pos((e2 - 1) as nat);
                if m1 >= 1 {
                    lemma_mul_inequality(1, m1 as int, pow2((e1 - 1) as nat) as int);
                }
                if m2 >= 1 {
                    lemma_mul_inequality(1, m2 as int, pow2((e2 - 1) as nat) as int);
                }
            }
            let ghost mag1 = f_mant(*p) * pow2((f_eexp(*p) - 1) as nat);
            let ghost mag2 = f_mant(*q) * pow2((f_eexp(*q) - 1) as nat);
            proof {
                if m1 == 0 {
                    assert(f_mant(*p) * pow2((f_eexp(*p) - 1) as nat) == 0) by (nonlinear_arith)
                        requires
                            f_mant(*p) == 0,
                    ;
                }
                if m2 == 0 {
                    assert(f_mant(*q) * pow2((f_eexp(*q) - 1) as nat) == 0) by (nonlinear_arith)
                        requires
                            f_mant(*q) == 0,
                    ;
                }
            }
            if m1 == 0 && m2 == 0 {
                Ordering::Equal
            } else if m1 == 0 {
                proof {
                    assert(mag2 > 0);
                }
                if n2 {
                    Ordering::Greater
                } else {
                    Ordering::Less
                }
            } else if m2 == 0 {
                proof {
                    assert(mag1 > 0);
                }
                if n1 {
                    Ordering::Less
                } else {
                    Ordering::Greater
                }
            } else if n1 != n2 {
                proof {
                    assert(mag1 > 0);
                    assert(mag2 > 0);
                }
                if n1 {
                    Ordering::Less
                } else {
                    Ordering::Greater
                }
            } else {
                let mag_cmp = cmp_mag_floats(m1, e1, m2, e2);
                proof {
                    assert(mag_cmp == int_cmp(mag1, mag2));
                    if n1 {
                        assert(int_cmp(-mag1, -mag2) == spec_reverse(int_cmp(mag1, mag2)));
                    }
                }
                if n1 {
                    reverse(mag_cmp)
                } else {
                    mag_cmp
                }
            }
        },
    }
}

/// The magnitude of a negative machine integer, without overflow at the
/// smallest one.
fn neg_magnitude(i: i64) -> (r: u64)
    requires
        i < 0,
    ensures
        r == -(i as int),
{
    ((-(i + 1)) as u64) + 1
}

} // verus!
