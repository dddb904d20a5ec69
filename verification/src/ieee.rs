//! IEEE-754 numbers as bit patterns.
//!
//! A cell that holds a number travels as the 64 bits of a double. This module
//! says which number a bit pattern stands for, finds the double of an integer
//! that a double can hold exactly, and widens the 32 bits of a single.

use vstd::arithmetic::div_mod::{lemma_fundamental_div_mod, lemma_mod_multiples_basic};
use vstd::arithmetic::mul::{
    lemma_mul_inequality, lemma_mul_inequality_converse, lemma_mul_strict_inequality,
    lemma_mul_strict_inequality_converse,
};
use vstd::arithmetic::power2::{
    lemma2_to64, lemma2_to64_rest, lemma_pow2_adds, lemma_pow2_pos, lemma_pow2_strictly_increases,
    lemma_pow2_unfold, pow2,
};
use vstd::prelude::*;

verus! {

/// The greatest magnitude up to which every integer is a double: `2^53`.
pub const EXACT_INT_LIMIT: i64 = 0x20_0000_0000_0000;

/// The number of the highest bit that is set in `n`, for `n >= 1`.
pub open spec fn log2_floor(n: nat) -> nat
    decreases n,
{
    if n <= 1 {
        0
    } else {
        1 + log2_floor(n / 2)
    }
}

/// The double with the given sign bit, biased exponent and fraction.
pub open spec fn double_from_parts(sign: int, exponent: int, fraction: int) -> u64 {
    (sign * 0x8000_0000_0000_0000 + exponent * 0x10_0000_0000_0000 + fraction) as u64
}

/// The sign bit of a double: `1` for a negative number.
pub open spec fn double_sign(bits: u64) -> int {
    bits as int / 0x8000_0000_0000_0000
}

/// The biased exponent of a double, 11 bits.
pub open spec fn double_exponent(bits: u64) -> int {
    bits as int / 0x10_0000_0000_0000 % 2048
}

/// The fraction of a double, 52 bits.
pub open spec fn double_fraction(bits: u64) -> int {
    bits as int % 0x10_0000_0000_0000
}

/// Whether the double is a number: neither an infinity nor a NaN.
pub open spec fn double_is_finite(bits: u64) -> bool {
    double_exponent(bits) != 2047
}

/// The significand of a finite double, with its sign: the fraction, and the
/// hidden bit above it unless the double is subnormal.
pub open spec fn double_significand(bits: u64) -> int {
    let magnitude = if double_exponent(bits) == 0 {
        double_fraction(bits)
    } else {
        0x10_0000_0000_0000 + double_fraction(bits)
    };
    if double_sign(bits) == 1 {
        -magnitude
    } else {
        magnitude
    }
}

/// The power of two by which the significand of a finite double is scaled.
pub open spec fn double_scale(bits: u64) -> int {
    if double_exponent(bits) == 0 {
        -1074
    } else {
        double_exponent(bits) - 1075
    }
}

/// The double `bits` is the integer `v`: it is finite, and its significand
/// times two to its scale is `v`.
pub open spec fn double_is_int(bits: u64, v: int) -> bool {
    let k = double_scale(bits);
    double_is_finite(bits) && if k >= 0 {
        v == double_significand(bits) * pow2(k as nat)
    } else {
        v * pow2((-k) as nat) == double_significand(bits)
    }
}

/// The double of the integer `v`, for `v` of a magnitude up to `2^53`: zero
/// is all bits clear; otherwise the exponent is that of the highest bit of
/// the magnitude, and the fraction the bits below it, moved up against it.
pub open spec fn double_of_int(v: int) -> u64 {
    if v == 0 {
        0
    } else {
        let a: nat = if v < 0 {
            (-v) as nat
        } else {
            v as nat
        };
        let e = log2_floor(a);
        let scaled: int = if e <= 52 {
            (a * pow2((52 - e) as nat)) as int
        } else {
            a as int / pow2((e - 52) as nat) as int
        };
        double_from_parts(
            if v < 0 {
                1
            } else {
                0
            },
            1023 + e as int,
            scaled - 0x10_0000_0000_0000,
        )
    }
}

/// A number lies between the power of two of its highest bit and the next.
pub proof fn lemma_log2_floor_bounds(n: nat)
    requires
        n >= 1,
    ensures
        pow2(log2_floor(n)) <= n < pow2(log2_floor(n) + 1),
    decreases n,
{
    if n == 1 {
        lemma2_to64();
    } else {
        lemma_log2_floor_bounds(n / 2);
        lemma_pow2_unfold(log2_floor(n / 2) + 1);
        lemma_pow2_unfold(log2_floor(n / 2) + 2);
    }
}

/// The highest bit of a number between `2^e` and `2^(e+1)` is bit `e`.
pub proof fn lemma_log2_floor_is(n: nat, e: nat)
    requires
        pow2(e) <= n < pow2(e + 1),
    ensures
        log2_floor(n) == e,
    decreases e,
{
    if e == 0 {
        lemma2_to64();
    } else {
        lemma_pow2_unfold(e);
        lemma_pow2_unfold(e + 1);
        lemma_pow2_pos((e - 1) as nat);
        lemma_log2_floor_is(n / 2, (e - 1) as nat);
    }
}

/// A number of highest bit `e`, moved up by `52 - e` bits, has highest bit 52.
proof fn lemma_scaled_range(a: nat, e: nat)
    requires
        e <= 52,
        pow2(e) <= a < pow2(e + 1),
    ensures
        0x10_0000_0000_0000 <= a * pow2((52 - e) as nat) < 0x20_0000_0000_0000,
{
    let up = (52 - e) as nat;
    lemma2_to64_rest();
    lemma_pow2_pos(up);
    lemma_pow2_adds(e, up);
    lemma_pow2_adds(e + 1, up);
    lemma_mul_inequality(pow2(e) as int, a as int, pow2(up) as int);
    lemma_mul_strict_inequality(a as int, pow2(e + 1) as int, pow2(up) as int);
}

/// The parts of a double made from parts are those parts.
proof fn lemma_double_parts(sign: int, exponent: int, fraction: int)
    requires
        0 <= sign <= 1,
        0 <= exponent < 2048,
        0 <= fraction < 0x10_0000_0000_0000,
    ensures
        double_sign(double_from_parts(sign, exponent, fraction)) == sign,
        double_exponent(double_from_parts(sign, exponent, fraction)) == exponent,
        double_fraction(double_from_parts(sign, exponent, fraction)) == fraction,
{
    let upper = sign * 2048 + exponent;
    let bits = upper * 0x10_0000_0000_0000 + fraction;
    assert(bits == sign * 0x8000_0000_0000_0000 + exponent * 0x10_0000_0000_0000 + fraction);
    assert(0 <= bits < 0x1_0000_0000_0000_0000);
    assert(bits / 0x10_0000_0000_0000 == upper);
    assert(bits % 0x10_0000_0000_0000 == fraction);
    assert(bits / 0x8000_0000_0000_0000 == sign);
}

/// An integer of a magnitude up to `2^53` is the number that its double
/// stands for: nothing is lost on the way into the double.
pub proof fn lemma_double_of_int_exact(v: int)
    requires
        -EXACT_INT_LIMIT <= v <= EXACT_INT_LIMIT,
    ensures
        double_is_int(double_of_int(v), v),
{
    lemma2_to64();
    lemma2_to64_rest();
    if v == 0 {
        assert(double_exponent(0) == 0);
        assert(double_fraction(0) == 0);
        assert(double_sign(0) == 0);
        assert(0 * pow2(1074) == 0);
    } else {
        let a: nat = if v < 0 {
            (-v) as nat
        } else {
            v as nat
        };
        let e = log2_floor(a);
        let sign: int = if v < 0 {
            1
        } else {
            0
        };
        lemma_log2_floor_bounds(a);
        if e > 53 {
            lemma_pow2_strictly_increases(53, e);
        }
        if e <= 52 {
            let up = (52 - e) as nat;
            let scaled = a * pow2(up);
            lemma_scaled_range(a, e);
            lemma_double_parts(sign, 1023 + e as int, scaled - 0x10_0000_0000_0000);
            let bits = double_of_int(v);
            assert(double_scale(bits) == e - 52);
            if v < 0 {
                assert(double_significand(bits) == -scaled);
                assert(v * pow2(up) == -scaled) by (nonlinear_arith)
                    requires
                        v == -(a as int),
                        scaled == a * pow2(up),
                ;
            } else {
                assert(double_significand(bits) == scaled);
            }
            if e == 52 {
                assert(pow2(0) == 1);
                assert(a * 1 == a);
            }
        } else {
            assert(a == 0x20_0000_0000_0000);
            assert(pow2(1) == 2);
            lemma_double_parts(sign, 1076, 0);
            let bits = double_of_int(v);
            assert(double_scale(bits) == 1);
        }
    }
}

/// A double is one integer at most.
pub proof fn lemma_double_is_int_unique(bits: u64, v: int, w: int)
    requires
        double_is_int(bits, v),
        double_is_int(bits, w),
    ensures
        v == w,
{
    let k = double_scale(bits);
    if k < 0 {
        let p = pow2((-k) as nat);
        lemma_pow2_pos((-k) as nat);
        lemma_mul_inequality_converse(v, w, p as int);
        lemma_mul_inequality_converse(w, v, p as int);
    }
}

/// Whether a double holds `v` exactly: whether its magnitude is `2^53` at most.
pub fn fits_double(v: i64) -> (fits: bool)
    ensures
        fits == (-EXACT_INT_LIMIT <= v <= EXACT_INT_LIMIT),
{
    -EXACT_INT_LIMIT <= v && v <= EXACT_INT_LIMIT
}

/// Moves a number up, bit by bit, until its highest bit is bit 52, and tells
/// by how many bits it moved.
fn normalize(a: u64) -> (r: (u64, u64))
    requires
        1 <= a < 0x20_0000_0000_0000,
    ensures
        r.1 <= 52,
        r.0 == a * pow2(r.1 as nat),
        0x10_0000_0000_0000 <= r.0 < 0x20_0000_0000_0000,
        log2_floor(a as nat) == 52 - r.1,
{
    let mut m: u64 = a;
    let mut up: u64 = 0;
    proof {
        lemma2_to64();
    }
    while m < 0x10_0000_0000_0000
        invariant
            1 <= a,
            1 <= m,
            up <= 52,
            m == a * pow2(up as nat),
            m < 0x20_0000_0000_0000,
        decreases 0x20_0000_0000_0000 - m,
    {
        proof {
            lemma2_to64_rest();
            lemma_pow2_pos(up as nat);
            lemma_pow2_unfold((up + 1) as nat);
            if up >= 52 {
                if up > 52 {
                    lemma_pow2_strictly_increases(52, up as nat);
                }
                lemma_mul_inequality(1, a as int, pow2(up as nat) as int);
            }
            assert(2 * (a * pow2(up as nat)) == a * (2 * pow2(up as nat))) by (nonlinear_arith);
        }
        m = m * 2;
        up = up + 1;
    }
    proof {
        let e = (52 - up) as nat;
        let p = pow2(up as nat);
        lemma2_to64_rest();
        lemma_pow2_pos(up as nat);
        lemma_pow2_adds(e, up as nat);
        lemma_pow2_adds(e + 1, up as nat);
        assert(pow2(e) * p == 0x10_0000_0000_0000);
        assert(pow2(e + 1) * p == 0x20_0000_0000_0000);
        lemma_mul_inequality_converse(pow2(e) as int, a as int, p as int);
        lemma_mul_strict_inequality_converse(a as int, pow2(e + 1) as int, p as int);
        lemma_log2_floor_is(a as nat, e);
    }
    (m, up)
}

/// The bits of the double that holds the integer `v`.
pub fn double_bits_of_int(v: i64) -> (bits: u64)
    requires
        -EXACT_INT_LIMIT <= v <= EXACT_INT_LIMIT,
    ensures
        bits == double_of_int(v as int),
{
    if v == 0 {
        return 0;
    }
    let a: u64 = if v < 0 {
        (-v) as u64
    } else {
        v as u64
    };
    let sign: u64 = if v < 0 {
        0x8000_0000_0000_0000
    } else {
        0
    };
    if a == 0x20_0000_0000_0000 {
        proof {
            lemma2_to64();
            lemma2_to64_rest();
            lemma_log2_floor_is(a as nat, 53);
            assert(pow2(1) == 2);
            assert(a as int / pow2(1) as int == 0x10_0000_0000_0000);
        }
        return sign + 1076 * 0x10_0000_0000_0000;
    }
    let (m, up) = normalize(a);
    sign + (1075 - up) * 0x10_0000_0000_0000 + (m - 0x10_0000_0000_0000)
}

/// The sign bit of a single.
pub open spec fn single_sign(bits: u32) -> int {
    bits as int / 0x8000_0000
}

/// The biased exponent of a single, 8 bits.
pub open spec fn single_exponent(bits: u32) -> int {
    bits as int / 0x80_0000 % 256
}

/// The fraction of a single, 23 bits.
pub open spec fn single_fraction(bits: u32) -> int {
    bits as int % 0x80_0000
}

/// Whether the single is a number: neither an infinity nor a NaN.
pub open spec fn single_is_finite(bits: u32) -> bool {
    single_exponent(bits) != 255
}

/// The significand of a finite single, with its sign.
pub open spec fn single_significand(bits: u32) -> int {
    let magnitude = if single_exponent(bits) == 0 {
        single_fraction(bits)
    } else {
        0x80_0000 + single_fraction(bits)
    };
    if single_sign(bits) == 1 {
        -magnitude
    } else {
        magnitude
    }
}

/// The power of two by which the significand of a finite single is scaled.
pub open spec fn single_scale(bits: u32) -> int {
    if single_exponent(bits) == 0 {
        -149
    } else {
        single_exponent(bits) - 150
    }
}

/// The double that a single widens to. A number keeps its value, an infinity
/// stays one, and a NaN becomes the quiet NaN that carries its sign and payload.
pub open spec fn widened(bits: u32) -> u64 {
    let sign = single_sign(bits);
    let exponent = single_exponent(bits);
    let fraction = single_fraction(bits);
    if exponent == 255 {
        double_from_parts(
            sign,
            2047,
            if fraction == 0 {
                0
            } else if fraction >= 0x40_0000 {
                fraction * 0x2000_0000
            } else {
                fraction * 0x2000_0000 + 0x8_0000_0000_0000
            },
        )
    } else if exponent == 0 {
        if fraction == 0 {
            double_from_parts(sign, 0, 0)
        } else {
            let top = log2_floor(fraction as nat);
            double_from_parts(
                sign,
                874 + top as int,
                fraction * pow2((52 - top) as nat) - 0x10_0000_0000_0000,
            )
        }
    } else {
        double_from_parts(sign, exponent + 896, fraction * 0x2000_0000)
    }
}

/// Widening keeps the number: the double is finite where the single is, and
/// its significand and scale stand for the same value. What is no number
/// stays none, an infinity an infinity and a NaN a NaN, under the same sign.
pub proof fn lemma_widened_same_number(bits: u32)
    ensures
        double_sign(widened(bits)) == single_sign(bits),
        double_is_finite(widened(bits)) == single_is_finite(bits),
        single_is_finite(bits) ==> double_scale(widened(bits)) <= single_scale(bits)
            && double_significand(widened(bits)) == single_significand(bits) * pow2(
            (single_scale(bits) - double_scale(widened(bits))) as nat,
        ),
        !single_is_finite(bits) ==> (double_fraction(widened(bits)) == 0 <==> single_fraction(bits)
            == 0),
{
    let sign = single_sign(bits);
    let exponent = single_exponent(bits);
    let fraction = single_fraction(bits);
    let wide = widened(bits);
    lemma2_to64();
    lemma2_to64_rest();
    if exponent == 255 {
        let carried: int = if fraction == 0 {
            0
        } else if fraction >= 0x40_0000 {
            fraction * 0x2000_0000
        } else {
            fraction * 0x2000_0000 + 0x8_0000_0000_0000
        };
        lemma_double_parts(sign, 2047, carried);
    } else if exponent == 0 {
        if fraction == 0 {
            lemma_double_parts(sign, 0, 0);
            assert(double_scale(wide) == -1074);
            assert(single_significand(bits) == 0);
            assert(0 * pow2(925) == 0);
        } else {
            let top = log2_floor(fraction as nat);
            let up = (52 - top) as nat;
            lemma_log2_floor_bounds(fraction as nat);
            if top > 23 {
                lemma_pow2_strictly_increases(23, top);
            }
            assert(pow2(23) == 0x80_0000);
            lemma_scaled_range(fraction as nat, top);
            let scaled = fraction * pow2(up);
            lemma_double_parts(sign, 874 + top as int, scaled - 0x10_0000_0000_0000);
            assert(double_scale(wide) == top - 201);
            assert((single_scale(bits) - double_scale(wide)) as nat == up);
            assert((-fraction) * pow2(up) == -scaled) by (nonlinear_arith)
                requires
                    scaled == fraction * pow2(up),
            ;
            assert(double_significand(wide) == single_significand(bits) * pow2(up));
        }
    } else {
        lemma_double_parts(sign, exponent + 896, fraction * 0x2000_0000);
        assert(double_scale(wide) == exponent - 179);
        assert(pow2(29) == 0x2000_0000);
        let narrow = single_significand(bits);
        assert(narrow * pow2(29) == narrow * 0x2000_0000);
        assert(double_significand(wide) == narrow * 0x2000_0000);
    }
}

/// Widens the bits of a single to the bits of the double of the same value.
pub fn widen_single(bits: u32) -> (wide: u64)
    ensures
        wide == widened(bits),
{
    let sign: u64 = if bits >= 0x8000_0000 {
        0x8000_0000_0000_0000
    } else {
        0
    };
    let exponent: u64 = (bits / 0x80_0000 % 256) as u64;
    let fraction: u64 = (bits % 0x80_0000) as u64;
    if exponent == 255 {
        let carried: u64 = if fraction == 0 {
            0
        } else if fraction >= 0x40_0000 {
            fraction * 0x2000_0000
        } else {
            fraction * 0x2000_0000 + 0x8_0000_0000_0000
        };
        sign + 2047 * 0x10_0000_0000_0000 + carried
    } else if exponent == 0 {
        if fraction == 0 {
            sign
        } else {
            let (m, up) = normalize(fraction);
            sign + (926 - up) * 0x10_0000_0000_0000 + (m - 0x10_0000_0000_0000)
        }
    } else {
        sign + (exponent + 896) * 0x10_0000_0000_0000 + fraction * 0x2000_0000
    }
}

/// Whether `v` lies strictly between `-2^63` and `2^63`.
pub open spec fn in_signed_range(v: int) -> bool {
    -0x8000_0000_0000_0000 < v < 0x8000_0000_0000_0000
}

/// `2` to the power `k`, for a power that fits.
fn power_of_two(k: u64) -> (p: u64)
    requires
        k <= 62,
    ensures
        p == pow2(k as nat),
        1 <= p <= 0x4000_0000_0000_0000,
{
    let mut p: u64 = 1;
    let mut i: u64 = 0;
    proof {
        lemma2_to64();
    }
    while i < k
        invariant
            i <= k <= 62,
            p == pow2(i as nat),
            1 <= p,
        decreases k - i,
    {
        proof {
            lemma2_to64_rest();
            lemma_pow2_unfold((i + 1) as nat);
            if i + 1 < 62 {
                lemma_pow2_strictly_increases((i + 1) as nat, 62);
            }
        }
        p = p * 2;
        i = i + 1;
    }
    proof {
        lemma2_to64_rest();
        if k < 62 {
            lemma_pow2_strictly_increases(k as nat, 62);
        }
    }
    p
}

/// A product with a positive factor is zero only where the other factor is,
/// and is no smaller in magnitude than the positive factor elsewhere.
proof fn lemma_product_bounds(v: int, p: int)
    requires
        p > 0,
    ensures
        v == 0 ==> v * p == 0,
        v >= 1 ==> v * p >= p,
        v <= -1 ==> v * p <= -p,
{
    assert(v == 0 ==> v * p == 0) by (nonlinear_arith);
    assert(v >= 1 ==> v * p >= p) by (nonlinear_arith)
        requires
            p > 0,
    ;
    assert(v <= -1 ==> v * p <= -p) by (nonlinear_arith)
        requires
            p > 0,
    ;
}

/// Reads the integer that a double is. Gives none for a double that is no
/// integer, among them the infinities and the NaNs, and none for an integer
/// of a magnitude of `2^63` or more.
pub fn int_of_double(bits: u64) -> (r: Option<i64>)
    ensures
        match r {
            Some(v) => double_is_int(bits, v as int) && in_signed_range(v as int),
            None => forall|v: int| double_is_int(bits, v) ==> !in_signed_range(v),
        },
{
    let exponent: u64 = bits / 0x10_0000_0000_0000 % 2048;
    let fraction: u64 = bits % 0x10_0000_0000_0000;
    let negative: bool = bits >= 0x8000_0000_0000_0000;
    proof {
        lemma2_to64();
        lemma2_to64_rest();
        assert(double_sign(bits) == if negative {
            1int
        } else {
            0
        });
    }
    if exponent == 2047 {
        return None;
    }
    if exponent == 0 {
        proof {
            lemma_pow2_strictly_increases(52, 1074);
            assert forall|v: int| double_is_int(bits, v) implies v == 0 && fraction == 0 by {
                lemma_product_bounds(v, pow2(1074) as int);
            }
        }
        if fraction == 0 {
            proof {
                lemma_product_bounds(0, pow2(1074) as int);
            }
            return Some(0);
        }
        return None;
    }
    let m: u64 = 0x10_0000_0000_0000 + fraction;
    let ghost signed: int = if negative {
        -(m as int)
    } else {
        m as int
    };
    assert(double_significand(bits) == signed);
    if exponent >= 1075 {
        let k: u64 = exponent - 1075;
        if k > 10 {
            proof {
                lemma_pow2_pos(k as nat);
                if k > 11 {
                    lemma_pow2_strictly_increases(11, k as nat);
                }
                assert(pow2(11) == 2048);
                assert forall|v: int| double_is_int(bits, v) implies !in_signed_range(v) by {
                    lemma_mul_inequality(0x10_0000_0000_0000, m as int, pow2(k as nat) as int);
                    lemma_mul_inequality(2048, pow2(k as nat) as int, 0x10_0000_0000_0000);
                    assert(0x10_0000_0000_0000 * pow2(k as nat) == pow2(k as nat)
                        * 0x10_0000_0000_0000) by (nonlinear_arith);
                    assert((-(m as int)) * pow2(k as nat) == -(m * pow2(k as nat)))
                        by (nonlinear_arith);
                }
            }
            return None;
        }
        let p = power_of_two(k);
        proof {
            if k < 10 {
                lemma_pow2_strictly_increases(k as nat, 10);
            }
            assert(pow2(10) == 1024);
            lemma_mul_inequality(p as int, 1024, m as int);
            assert(p * m == m * p) by (nonlinear_arith);
            assert((-(m as int)) * p == -(m * p)) by (nonlinear_arith);
        }
        let magnitude: u64 = m * p;
        Some(
            if negative {
                -(magnitude as i64)
            } else {
                magnitude as i64
            },
        )
    } else {
        let down: u64 = 1075 - exponent;
        if down > 52 {
            proof {
                if down > 53 {
                    lemma_pow2_strictly_increases(53, down as nat);
                }
                assert forall|v: int| double_is_int(bits, v) implies false by {
                    lemma_product_bounds(v, pow2(down as nat) as int);
                }
            }
            return None;
        }
        let p = power_of_two(down);
        if m % p == 0 {
            let magnitude: u64 = m / p;
            proof {
                lemma_fundamental_div_mod(m as int, p as int);
                assert(p * magnitude == magnitude * p) by (nonlinear_arith);
                assert((-(magnitude as int)) * p == -(magnitude * p)) by (nonlinear_arith);
            }
            Some(
                if negative {
                    -(magnitude as i64)
                } else {
                    magnitude as i64
                },
            )
        } else {
            proof {
                assert forall|v: int| double_is_int(bits, v) implies false by {
                    if negative {
                        assert((-v) * p == -(v * p)) by (nonlinear_arith);
                        lemma_mod_multiples_basic(-v, p as int);
                    } else {
                        lemma_mod_multiples_basic(v, p as int);
                    }
                }
            }
            None
        }
    }
}

} // verus!
