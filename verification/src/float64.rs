//! IEEE 754 double-precision numbers, held and computed on as their 64 bits.
//!
//! A finite double is a whole number of units, a unit being the smallest positive double (two to
//! the power -1074). Results are the exact values rounded to the nearest double, ties to the one
//! with an even last bit.
use crate::rounding::{encode_dyadic, length_in_bits, power_of_two};
use vstd::arithmetic::power2::{lemma_pow2_adds, lemma_pow2_pos, lemma_pow2_unfold, pow2};
use vstd::prelude::*;

verus! {

/// The bit of the sign.
pub const SIGN_BIT: u64 = 0x8000_0000_0000_0000;

/// Positive infinity.
pub const INFINITY: u64 = 0x7ff0_0000_0000_0000;

/// The value that stands for an undefined result.
pub const NOT_A_NUMBER: u64 = 0x7ff8_0000_0000_0000;

/// The size of the field of the fraction.
pub const FRACTION: u64 = 0x10_0000_0000_0000;

/// Whether the sign bit is set.
pub open spec fn is_negative(b: u64) -> bool {
    b >= SIGN_BIT
}

/// The bits without the sign.
pub open spec fn magnitude(b: u64) -> nat {
    (b % SIGN_BIT) as nat
}

/// Whether `b` is undefined.
pub open spec fn is_nan(b: u64) -> bool {
    magnitude(b) > INFINITY
}

/// Whether `b` is one of the infinities.
pub open spec fn is_infinite(b: u64) -> bool {
    magnitude(b) == INFINITY
}

/// The units of the magnitude of a finite double.
pub open spec fn units(b: u64) -> nat {
    let e = magnitude(b) / FRACTION as nat;
    let f = magnitude(b) % FRACTION as nat;
    if e == 0 {
        f
    } else {
        (f + FRACTION as nat) * pow2((e - 1) as nat)
    }
}

/// The units of a finite double, with its sign.
pub open spec fn signed_units(b: u64) -> int {
    if is_negative(b) {
        -(units(b) as int)
    } else {
        units(b) as int
    }
}

/// The double with the given sign and magnitude.
pub open spec fn with_sign(negative: bool, mag: nat) -> u64 {
    if negative {
        (SIGN_BIT + mag) as u64
    } else {
        mag as u64
    }
}

/// The magnitude nearest to `num / den` units.
pub open spec fn rounded(num: nat, den: nat) -> nat {
    crate::rounding::at_most(crate::rounding::encode(num, den, 53), INFINITY as nat)
}

/// `a * b`.
pub open spec fn product(a: u64, b: u64) -> u64 {
    let negative = is_negative(a) != is_negative(b);
    if is_nan(a) || is_nan(b) {
        NOT_A_NUMBER
    } else if is_infinite(a) || is_infinite(b) {
        if magnitude(a) == 0 || magnitude(b) == 0 {
            NOT_A_NUMBER
        } else {
            with_sign(negative, INFINITY as nat)
        }
    } else {
        with_sign(negative, rounded(units(a) * units(b), pow2(1074)))
    }
}

/// `a + b`.
pub open spec fn sum(a: u64, b: u64) -> u64 {
    let x = signed_units(a) + signed_units(b);
    if is_nan(a) || is_nan(b) {
        NOT_A_NUMBER
    } else if is_infinite(a) && is_infinite(b) && is_negative(a) != is_negative(b) {
        NOT_A_NUMBER
    } else if is_infinite(a) {
        a
    } else if is_infinite(b) {
        b
    } else if x == 0 {
        with_sign(is_negative(a) && is_negative(b), 0)
    } else if x < 0 {
        with_sign(true, rounded((-x) as nat, 1))
    } else {
        with_sign(false, rounded(x as nat, 1))
    }
}

/// `a / b`.
pub open spec fn quotient(a: u64, b: u64) -> u64 {
    let negative = is_negative(a) != is_negative(b);
    if is_nan(a) || is_nan(b) || (is_infinite(a) && is_infinite(b)) || (magnitude(a) == 0
        && magnitude(b) == 0) {
        NOT_A_NUMBER
    } else if is_infinite(a) || magnitude(b) == 0 {
        with_sign(negative, INFINITY as nat)
    } else if is_infinite(b) {
        with_sign(negative, 0)
    } else {
        with_sign(negative, rounded(units(a) * pow2(1074), units(b)))
    }
}

/// The whole number `n` as a double.
pub open spec fn of_whole(n: u64) -> u64 {
    with_sign(false, rounded(n as nat * pow2(1074), 1))
}

/// Where `b` stands among the doubles that are not undefined: the two zeros share a place.
pub open spec fn place(b: u64) -> int {
    if is_negative(b) {
        -(magnitude(b) as int)
    } else {
        magnitude(b) as int
    }
}

/// `a < b`.
pub open spec fn less(a: u64, b: u64) -> bool {
    !is_nan(a) && !is_nan(b) && place(a) < place(b)
}

/// `b` rounded to the nearest whole number, halves away from zero, and cut to 64 bits.
pub open spec fn rounded_to_u64(b: u64) -> u64 {
    if is_nan(b) || is_negative(b) {
        0
    } else if is_infinite(b) {
        u64::MAX
    } else {
        crate::rounding::at_most(
            (2 * units(b) + pow2(1074)) / pow2(1075),
            u64::MAX as nat,
        ) as u64
    }
}

/// `b` without its fraction, cut to 64 bits.
pub open spec fn truncated_to_u64(b: u64) -> u64 {
    if is_nan(b) || is_negative(b) {
        0
    } else if is_infinite(b) {
        u64::MAX
    } else {
        crate::rounding::at_most(units(b) / pow2(1074), u64::MAX as nat) as u64
    }
}

/// The significand and the exponent of a finite magnitude: units are the first times two to the
/// power of the second.
fn split(b: u64) -> (r: (u64, u32))
    requires
        magnitude(b) < INFINITY,
    ensures
        units(b) == r.0 * pow2(r.1 as nat),
        r.0 < 0x20_0000_0000_0000,
        r.1 <= 2045,
        r.1 > 0 ==> r.0 >= FRACTION,
        r.0 == 0 <==> magnitude(b) == 0,
        r.0 == 0 <==> units(b) == 0,
{
    let m: u64 = b % SIGN_BIT;
    let e: u64 = m / FRACTION;
    let f: u64 = m % FRACTION;
    if e == 0 {
        proof {
            assert(pow2(0) == 1) by {
                vstd::arithmetic::power2::lemma2_to64();
            }
        }
        (f, 0)
    } else {
        proof {
            lemma_pow2_pos((e - 1) as nat);
            let a = (f + FRACTION) as int;
            let c = pow2((e - 1) as nat) as int;
            assert(a * c > 0) by (nonlinear_arith)
                requires
                    a > 0,
                    c > 0,
            ;
        }
        (f + FRACTION, (e - 1) as u32)
    }
}

fn put_sign(negative: bool, mag: u64) -> (r: u64)
    requires
        mag <= INFINITY,
    ensures
        r == with_sign(negative, mag as nat),
{
    if negative {
        SIGN_BIT + mag
    } else {
        mag
    }
}

/// Multiply two doubles.
pub fn multiply(a: u64, b: u64) -> (r: u64)
    ensures
        r == product(a, b),
{
    let negative = (a >= SIGN_BIT) != (b >= SIGN_BIT);
    let ma: u64 = a % SIGN_BIT;
    let mb: u64 = b % SIGN_BIT;
    if ma > INFINITY || mb > INFINITY {
        return NOT_A_NUMBER;
    }
    if ma == INFINITY || mb == INFINITY {
        if ma == 0 || mb == 0 {
            return NOT_A_NUMBER;
        }
        return put_sign(negative, INFINITY);
    }
    let (x, i) = split(a);
    let (y, j) = split(b);
    proof {
        crate::rounding::lemma_pow2_127();
        let p = x as int;
        let q = y as int;
        assert(0 <= p * q < 0x400_0000_0000_0000_0000_0000_0000) by (nonlinear_arith)
            requires
                0 <= p < 0x20_0000_0000_0000,
                0 <= q < 0x20_0000_0000_0000,
        ;
    }
    let m: u128 = x as u128 * y as u128;
    let s: i32 = i as i32 + j as i32 - 1074;
    let mag = encode_dyadic(m, s, 53, INFINITY);
    proof {
        let t = (i + j) as nat;
        lemma_pow2_adds(i as nat, j as nat);
        lemma_pow2_pos(t);
        lemma_pow2_pos(1074);
        let u = x as int;
        let v = y as int;
        let pi = pow2(i as nat) as int;
        let pj = pow2(j as nat) as int;
        assert((u * pi) * (v * pj) == (u * v) * (pi * pj)) by (nonlinear_arith);
        let num = units(a) * units(b);
        assert(num == m as nat * pow2(t));
        if s >= 0 {
            lemma_pow2_adds(s as nat, 1074);
            let n0 = m as nat * pow2(s as nat);
            assert(num == n0 * pow2(1074)) by (nonlinear_arith)
                requires
                    num == m as nat * pow2(t),
                    pow2(t) == pow2(s as nat) * pow2(1074),
                    n0 == m as nat * pow2(s as nat),
            ;
            assert(1 * pow2(1074) == pow2(1074));
            crate::rounding::lemma_encode_scale(n0, 1, pow2(1074), 53);
        } else {
            lemma_pow2_adds((-s) as nat, t);
            lemma_pow2_pos((-s) as nat);
            crate::rounding::lemma_encode_scale(m as nat, pow2((-s) as nat), pow2(t), 53);
        }
    }
    put_sign(negative, mag)
}

/// Whether `a < b`.
pub fn is_less(a: u64, b: u64) -> (r: bool)
    ensures
        r == less(a, b),
{
    let ma: u64 = a % SIGN_BIT;
    let mb: u64 = b % SIGN_BIT;
    if ma > INFINITY || mb > INFINITY {
        return false;
    }
    let na = a >= SIGN_BIT;
    let nb = b >= SIGN_BIT;
    if na && nb {
        mb < ma
    } else if na {
        ma > 0 || mb > 0
    } else if nb {
        false
    } else {
        ma < mb
    }
}

/// A double rounded to a 64-bit whole number, halves away from zero.
pub fn round_to_u64(b: u64) -> (r: u64)
    ensures
        r == rounded_to_u64(b),
{
    let mag: u64 = b % SIGN_BIT;
    if mag > INFINITY || b >= SIGN_BIT {
        return 0;
    }
    if mag == INFINITY {
        return u64::MAX;
    }
    let (m, e) = split(b);
    whole_units(m, e, true)
}

/// A double cut to a 64-bit whole number.
pub fn truncate_to_u64(b: u64) -> (r: u64)
    ensures
        r == truncated_to_u64(b),
{
    let mag: u64 = b % SIGN_BIT;
    if mag > INFINITY || b >= SIGN_BIT {
        return 0;
    }
    if mag == INFINITY {
        return u64::MAX;
    }
    let (m, e) = split(b);
    whole_units(m, e, false)
}

/// `m` times two to the power `e` units as a whole number.
fn whole_units(m: u64, e: u32, up: bool) -> (r: u64)
    requires
        m < 0x20_0000_0000_0000,
        e <= 2045,
        e > 0 ==> m >= FRACTION,
    ensures
        up ==> r == crate::rounding::at_most(
            (2 * (m * pow2(e as nat)) + pow2(1074)) as nat / pow2(1075),
            u64::MAX as nat,
        ),
        !up ==> r == crate::rounding::at_most(
            (m * pow2(e as nat)) as nat / pow2(1074),
            u64::MAX as nat,
        ),
{
    let ghost pe = pow2(e as nat) as int;
    let ghost one = pow2(1074) as int;
    proof {
        lemma_pow2_pos(e as nat);
        lemma_pow2_pos(1074);
        lemma_pow2_unfold(1075);
        crate::rounding::lemma_pow2_127();
        vstd::arithmetic::power2::lemma2_to64();
        vstd::arithmetic::power2::lemma2_to64_rest();
    }
    if e >= 1074 {
        let k: u32 = e - 1074;
        proof {
            lemma_pow2_adds(k as nat, 1074);
            lemma_pow2_pos(k as nat);
            let pk = pow2(k as nat) as int;
            let mm = m as int;
            assert((mm * pe) / one == mm * pk) by (nonlinear_arith)
                requires
                    pe == pk * one,
                    one > 0,
            ;
            assert((2 * (mm * pe) + one) / (2 * one) == mm * pk) by (nonlinear_arith)
                requires
                    pe == pk * one,
                    one > 0,
            ;
            if k >= 12 {
                crate::rounding::lemma_pow2_le(12, k as nat);
                assert(pow2(12) == 4096);
                assert(mm * pk > u64::MAX) by (nonlinear_arith)
                    requires
                        mm >= 0x10_0000_0000_0000,
                        pk >= 4096,
                ;
            } else {
                crate::rounding::lemma_pow2_le(k as nat, 11);
                assert(0 <= mm * pk <= u64::MAX as int * 2) by (nonlinear_arith)
                    requires
                        0 <= mm < 0x20_0000_0000_0000,
                        0 < pk <= 2048,
                ;
            }
        }
        if k >= 12 {
            u64::MAX
        } else {
            let v: u128 = m as u128 * power_of_two(k);
            if v <= u64::MAX as u128 {
                v as u64
            } else {
                u64::MAX
            }
        }
    } else {
        let d: u32 = 1074 - e;
        proof {
            lemma_pow2_adds(e as nat, d as nat);
            lemma_pow2_pos(d as nat);
            lemma_pow2_unfold(d as nat);
        }
        if d > 60 {
            proof {
                crate::rounding::lemma_pow2_le(60, d as nat);
                let mm = m as int;
                let pd = pow2(d as nat) as int;
                assert(4 * mm < pd);
                assert(0 <= mm * pe && 4 * (mm * pe) < one) by (nonlinear_arith)
                    requires
                        one == pe * pd,
                        4 * mm < pd,
                        0 <= mm,
                        pe > 0,
                ;
                let v = mm * pe;
                assert(v / one == 0) by (nonlinear_arith)
                    requires
                        0 <= v,
                        4 * v < one,
                ;
                assert((2 * v + one) / (2 * one) == 0) by (nonlinear_arith)
                    requires
                        0 <= v,
                        4 * v < one,
                ;
            }
            0
        } else {
            proof {
                crate::rounding::lemma_pow2_le(d as nat, 60);
            }
            let unit: u128 = power_of_two(d);
            proof {
                let mm = m as int;
                let pd = unit as int;
                assert((mm * pe) / one == mm / pd) by {
                    assert(one == pd * pe) by (nonlinear_arith)
                        requires
                            one == pe * pd,
                    ;
                    crate::rounding::lemma_div_scale(mm, pd, pe);
                }
                assert((2 * (mm * pe) + one) / (2 * one) == (2 * mm + pd) / (2 * pd)) by {
                    assert(2 * (mm * pe) + one == (2 * mm + pd) * pe) by (nonlinear_arith)
                        requires
                            one == pe * pd,
                    ;
                    assert(2 * one == (2 * pd) * pe) by (nonlinear_arith)
                        requires
                            one == pe * pd,
                    ;
                    crate::rounding::lemma_div_scale(2 * mm + pd, 2 * pd, pe);
                }
            }
            if up {
                ((2 * m as u128 + unit) / (2 * unit)) as u64
            } else {
                (m as u128 / unit) as u64
            }
        }
    }
}

/// The magnitude of `m` times two to the power `s` units.
fn round_dyadic(m: u128, s: i32) -> (mag: u64)
    requires
        m < 0x8000_0000_0000_0000_0000_0000_0000_0000,
        -4000 <= s <= 4000,
    ensures
        mag == rounded(
            crate::rounding::dyadic_num(m as nat, s as int),
            crate::rounding::dyadic_den(s as int),
        ),
        mag <= INFINITY,
{
    encode_dyadic(m, s, 53, INFINITY)
}

/// Add the units of two finite doubles, of which the first has the greater exponent.
fn add_ordered(a: u64, b: u64, x: u64, i: u32, y: u64, j: u32) -> (r: u64)
    requires
        magnitude(a) < INFINITY,
        magnitude(b) < INFINITY,
        units(a) == x * pow2(i as nat),
        units(b) == y * pow2(j as nat),
        x < 0x20_0000_0000_0000,
        y < 0x20_0000_0000_0000,
        j <= i <= 2045,
        i > 0 ==> x >= FRACTION,
    ensures
        r == sum(a, b),
{
    let na = a >= SIGN_BIT;
    let nb = b >= SIGN_BIT;
    let diff: u32 = i - j;
    let ghost total = signed_units(a) + signed_units(b);
    let ghost pj = pow2(j as nat) as int;
    let ghost pd = pow2(diff as nat) as int;
    proof {
        lemma_pow2_adds(diff as nat, j as nat);
        lemma_pow2_pos(j as nat);
        lemma_pow2_pos(diff as nat);
        crate::rounding::lemma_pow2_127();
        vstd::arithmetic::power2::lemma2_to64();
        vstd::arithmetic::power2::lemma2_to64_rest();
    }
    let ghost wide = x * pd;
    proof {
        let xx = x as int;
        assert(xx * (pd * pj) == (xx * pd) * pj) by (nonlinear_arith);
        assert(units(a) == wide * pj);
    }
    if diff <= 70 {
        proof {
            crate::rounding::lemma_pow2_le(diff as nat, 70);
            lemma_pow2_adds(6, 64);
            assert(pow2(70) == 0x40_0000_0000_0000_0000);
            let xx = x as int;
            assert(0 <= xx * pd <= 0x800_0000_0000_0000_0000_0000_0000_0000) by (nonlinear_arith)
                requires
                    0 <= xx < 0x20_0000_0000_0000,
                    0 < pd <= 0x40_0000_0000_0000_0000,
            ;
        }
        let w: u128 = x as u128 * power_of_two(diff);
        let yy: u128 = y as u128;
        let (negative, m): (bool, u128) = if na == nb {
            (na, w + yy)
        } else if w >= yy {
            (na, w - yy)
        } else {
            (nb, yy - w)
        };
        proof {
            let p = w as int;
            let q = y as int;
            assert((p + q) * pj == p * pj + q * pj) by (nonlinear_arith);
            assert((p - q) * pj == p * pj - q * pj) by (nonlinear_arith);
            assert((q - p) * pj == q * pj - p * pj) by (nonlinear_arith);
            let mm = m as int;
            assert(total == if negative {
                -(mm * pj)
            } else {
                mm * pj
            }) by {
                assert(-(p * pj) - q * pj == -((p + q) * pj));
            }
            assert(mm > 0 ==> mm * pj > 0) by (nonlinear_arith)
                requires
                    pj > 0,
            ;
            assert(0 * pj == 0);
        }
        if m == 0 {
            return put_sign(na && nb, 0);
        }
        let mag = round_dyadic(m, j as i32);
        put_sign(negative, mag)
    } else {
        let ghost u = pow2((i - 10) as nat) as int;
        proof {
            lemma_pow2_adds(10, (i - 10) as nat);
            assert(pow2(10) == 1024);
            lemma_pow2_pos((i - 10) as nat);
            // y * 2^j < 2^(j + 53) <= 2^(i - 10)
            lemma_pow2_adds(53, j as nat);
            crate::rounding::lemma_pow2_le((53 + j) as nat, (i - 10) as nat);
            let yy = y as int;
            assert(yy * pj < u) by (nonlinear_arith)
                requires
                    yy < 0x20_0000_0000_0000,
                    0x20_0000_0000_0000 * pj <= u,
                    pj > 0,
            ;
            assert(yy > 0 ==> yy * pj > 0) by (nonlinear_arith)
                requires
                    pj > 0,
            ;
            let xx = x as int;
            assert(units(a) == (xx * 1024) * u) by (nonlinear_arith)
                requires
                    units(a) == xx * pow2(i as nat),
                    pow2(i as nat) == 1024 * u,
            ;
            assert((xx * 1024) * u > 0) by (nonlinear_arith)
                requires
                    xx > 0,
                    u > 0,
            ;
            assert((xx * 1024) * u >= u) by (nonlinear_arith)
                requires
                    xx > 0,
                    u > 0,
            ;
        }
        if y == 0 {
            proof {
                assert(0 * pj == 0);
                assert(signed_units(b) == 0);
            }
            let mag = round_dyadic(x as u128, i as i32);
            return put_sign(na, mag);
        }
        let k: u128 = if na == nb {
            x as u128 * 1024
        } else {
            x as u128 * 1024 - 1
        };
        let mag = round_dyadic(2 * k + 1, i as i32 - 11);
        proof {
            let num: int = if total >= 0 {
                total
            } else {
                -total
            };
            let kk = k as int;
            let c = (x as int) * 1024;
            assert((c + 1) * u == c * u + u && (c - 1) * u == c * u - u) by (nonlinear_arith);
            assert(num > 0 && (total < 0) == na);
            assert(kk * u < num < (kk + 1) * u);
            let s = i - 10;
            assert(crate::rounding::dyadic_num(1, s as int) == u) by (nonlinear_arith)
                requires
                    crate::rounding::dyadic_num(1, s as int) == 1 * u,
            ;
            assert(1 * u == u);
            assert(crate::rounding::bit_len(k as nat) >= 55) by {
                crate::rounding::lemma_bit_len_bounds(k as nat);
                if crate::rounding::bit_len(k as nat) < 55 {
                    crate::rounding::lemma_pow2_le(crate::rounding::bit_len(k as nat), 54);
                    assert(pow2(54) == 0x40_0000_0000_0000);
                }
            }
            assert(crate::rounding::dyadic_den(s as int) == 1);
            let one = 1 * crate::rounding::dyadic_num(1, s as int);
            assert(one == u);
            assert((k as nat) * one == kk * u && (k as nat + 1) * one == (kk + 1) * u);
            assert((num as nat) * crate::rounding::dyadic_den(s as int) == num);
            crate::rounding::lemma_encode_sticky(k as nat, s as int, num as nat, 1, 53);
        }
        put_sign(na, mag)
    }
}

proof fn lemma_sum_commutes(a: u64, b: u64)
    requires
        !is_infinite(a),
        !is_infinite(b),
    ensures
        sum(a, b) == sum(b, a),
{
}

/// Add two doubles.
pub fn add(a: u64, b: u64) -> (r: u64)
    ensures
        r == sum(a, b),
{
    let ma: u64 = a % SIGN_BIT;
    let mb: u64 = b % SIGN_BIT;
    if ma > INFINITY || mb > INFINITY {
        return NOT_A_NUMBER;
    }
    if ma == INFINITY && mb == INFINITY && (a >= SIGN_BIT) != (b >= SIGN_BIT) {
        return NOT_A_NUMBER;
    }
    if ma == INFINITY {
        return a;
    }
    if mb == INFINITY {
        return b;
    }
    let (x, i) = split(a);
    let (y, j) = split(b);
    if i >= j {
        add_ordered(a, b, x, i, y, j)
    } else {
        proof {
            lemma_sum_commutes(a, b);
        }
        add_ordered(b, a, y, j, x, i)
    }
}

/// The double of the opposite sign.
pub open spec fn opposite(b: u64) -> u64 {
    with_sign(!is_negative(b), magnitude(b))
}

/// `a - b`.
pub fn subtract(a: u64, b: u64) -> (r: u64)
    ensures
        r == sum(a, opposite(b)),
{
    let m: u64 = b % SIGN_BIT;
    let minus: u64 = if b >= SIGN_BIT {
        m
    } else {
        SIGN_BIT + m
    };
    self::add(a, minus)
}

/// The double nearest to a whole number.
pub fn from_whole(n: u64) -> (r: u64)
    ensures
        r == of_whole(n),
{
    round_dyadic(n as u128, 1074)
}

/// What a division with remainder of scaled significands says of the doubles' quotient.
proof fn lemma_quotient_scale(
    x: nat,
    i: nat,
    up: nat,
    y: nat,
    j: nat,
    s: int,
    q: nat,
    rem: nat,
)
    requires
        y > 0,
        s == i - up - j + 1014,
        (x * pow2(up)) * pow2(60) == y * q + rem,
        rem < y,
    ensures
        ({
            let num = (x * pow2(i)) * pow2(1074) * crate::rounding::dyadic_den(s);
            let den = (y * pow2(j)) * crate::rounding::dyadic_num(1, s);
            &&& rem == 0 ==> num == q * den
            &&& rem > 0 ==> q * den < num < (q + 1) * den
        }),
{
    let dn = crate::rounding::dyadic_num(1, s) as int;
    let dd = crate::rounding::dyadic_den(s) as int;
    let xx = x as int;
    let yy = y as int;
    let qq = q as int;
    let rr = rem as int;
    let pi = pow2(i) as int;
    let pu = pow2(up) as int;
    let pj = pow2(j) as int;
    let c60 = pow2(60) as int;
    let c1074 = pow2(1074) as int;
    lemma_pow2_adds(i, 1074);
    lemma_pow2_adds(up, 60);
    lemma_pow2_adds(up + 60, j);
    lemma_pow2_pos(j);
    lemma_pow2_pos(i + 1074);
    let k = pow2(i + 1074) as int;
    let l = pow2(up + 60 + j) as int;
    lemma_pow2_pos(up + 60 + j);
    assert(k * dd == l * dn && dn > 0) by {
        if s >= 0 {
            lemma_pow2_adds(up + 60 + j, s as nat);
            lemma_pow2_pos(s as nat);
            assert(dn == pow2(s as nat)) by (nonlinear_arith)
                requires
                    dn == 1 * pow2(s as nat),
            ;
        } else {
            lemma_pow2_adds(i + 1074, (-s) as nat);
        }
    }
    let num = (xx * pi) * c1074 * dd;
    let den = (yy * pj) * dn;
    assert(num == xx * (k * dd)) by (nonlinear_arith)
        requires
            num == (xx * pi) * c1074 * dd,
            k == pi * c1074,
    ;
    assert(xx * (l * dn) == ((xx * pu) * c60) * (pj * dn)) by (nonlinear_arith)
        requires
            l == (pu * c60) * pj,
    ;
    let b = pj * dn;
    assert(b > 0) by (nonlinear_arith)
        requires
            pj > 0,
            dn > 0,
            b == pj * dn,
    ;
    assert(den == yy * b) by (nonlinear_arith)
        requires
            den == (yy * pj) * dn,
            b == pj * dn,
    ;
    assert(num == (yy * qq + rr) * b);
    assert(num == qq * den + rr * b) by (nonlinear_arith)
        requires
            num == (yy * qq + rr) * b,
            den == yy * b,
    ;
    assert(rr > 0 ==> 0 < rr * b < den) by (nonlinear_arith)
        requires
            den == yy * b,
            0 <= rr < yy,
            b > 0,
    ;
    assert(rr == 0 ==> rr * b == 0) by (nonlinear_arith);
    assert((qq + 1) * den == qq * den + den) by (nonlinear_arith);
}

/// A quotient that is a whole number of steps encodes like that number of steps.
proof fn lemma_exact_quotient(q: nat, s: int, num: nat, den: nat)
    requires
        den > 0,
        num * crate::rounding::dyadic_den(s) == q * (den * crate::rounding::dyadic_num(1, s)),
    ensures
        crate::rounding::encode(num, den, 53) == crate::rounding::encode(
            crate::rounding::dyadic_num(q, s),
            crate::rounding::dyadic_den(s),
            53,
        ),
{
    if s >= 0 {
        let p = pow2(s as nat);
        assert(num == (q * p) * den) by (nonlinear_arith)
            requires
                num * 1 == q * (den * (1 * p)),
        ;
        assert(1 * den == den);
        crate::rounding::lemma_encode_scale(q * p, 1, den, 53);
    } else {
        let v = pow2((-s) as nat);
        lemma_pow2_pos((-s) as nat);
        crate::rounding::lemma_encode_scale(num, den, v, 53);
        assert(q * (den * 1) == q * den);
        assert(den * v == v * den) by (nonlinear_arith);
        crate::rounding::lemma_encode_scale(q, v, den, 53);
    }
}

/// Divide two doubles.
pub fn divide(a: u64, b: u64) -> (r: u64)
    ensures
        r == quotient(a, b),
{
    let negative = (a >= SIGN_BIT) != (b >= SIGN_BIT);
    let ma: u64 = a % SIGN_BIT;
    let mb: u64 = b % SIGN_BIT;
    if ma > INFINITY || mb > INFINITY || (ma == INFINITY && mb == INFINITY) || (ma == 0 && mb
        == 0) {
        return NOT_A_NUMBER;
    }
    if ma == INFINITY || mb == 0 {
        return put_sign(negative, INFINITY);
    }
    if mb == INFINITY {
        return put_sign(negative, 0);
    }
    let (x0, i0) = split(a);
    let (y, j) = split(b);
    if x0 == 0 {
        let mag = round_dyadic(0, 0);
        proof {
            lemma_pow2_pos(1074);
            assert(0 * pow2(1074) == 0) by (nonlinear_arith);
            assert(crate::rounding::dyadic_num(0, 0) == 0) by (nonlinear_arith)
                requires
                    crate::rounding::dyadic_num(0, 0) == 0 * pow2(0),
            ;
            assert(units(b) > 0);
            crate::rounding::lemma_encode_scale(0, 1, units(b), 53);
        }
        return put_sign(negative, mag);
    }
    // Bring the significand of the dividend to its full length.
    let len: u32 = length_in_bits(x0 as u128);
    proof {
        crate::rounding::lemma_pow2_127();
        vstd::arithmetic::power2::lemma2_to64();
        vstd::arithmetic::power2::lemma2_to64_rest();
        crate::rounding::lemma_bit_len_bounds(x0 as nat);
        if len > 53 {
            crate::rounding::lemma_pow2_le(53, (len - 1) as nat);
        }
    }
    let up: u32 = 53 - len;
    let ghost pu = pow2(up as nat) as int;
    proof {
        lemma_pow2_pos(up as nat);
        crate::rounding::lemma_bit_len_mul(x0 as nat, up as nat);
        let p = x0 as int;
        assert(p * pu > 0) by (nonlinear_arith)
            requires
                p > 0,
                pu > 0,
        ;
        crate::rounding::lemma_bit_len_bounds(x0 as nat * pow2(up as nat));
        assert(0x10_0000_0000_0000 <= p * pu < 0x20_0000_0000_0000);
        crate::rounding::lemma_pow2_le(up as nat, 53);
    }
    let x: u128 = x0 as u128 * power_of_two(up);
    let wide: u128 = x * 0x1000_0000_0000_0000;
    let d: u128 = y as u128;
    let q: u128 = wide / d;
    let rem: u128 = wide % d;
    let s: i32 = i0 as i32 - up as i32 - j as i32 + 1014;
    let ghost num = units(a) * pow2(1074);
    let ghost den = units(b);
    proof {
        let n = wide as int;
        let dd = d as int;
        assert(n == dd * q + rem && 0 <= rem < dd) by {
            vstd::arithmetic::div_mod::lemma_fundamental_div_mod(n, dd);
            vstd::arithmetic::div_mod::lemma_mod_bound(n, dd);
        }
        let qq = q as int;
        assert(qq >= 0x40_0000_0000_0000) by (nonlinear_arith)
            requires
                n == dd * qq + rem,
                0 <= rem < dd,
                n >= 0x1_0000_0000_0000_0000_0000_0000_0000,
                0 < dd < 0x20_0000_0000_0000,
        ;
        assert(qq <= n) by (nonlinear_arith)
            requires
                n == dd * qq + rem,
                rem >= 0,
                dd > 0,
                qq >= 0,
        ;
        assert(pow2(60) == 0x1000_0000_0000_0000);
        lemma_quotient_scale(
            x0 as nat,
            i0 as nat,
            up as nat,
            y as nat,
            j as nat,
            s as int,
            q as nat,
            rem as nat,
        );
    }
    let mag = if rem == 0 {
        let mag = round_dyadic(q, s);
        proof {
            // num * dyadic_den(s) == q * (den * dyadic_num(1, s))
            lemma_exact_quotient(q as nat, s as int, num, den);
        }
        mag
    } else {
        let mag = round_dyadic(2 * q + 1, s - 1);
        proof {
            assert(crate::rounding::bit_len(q as nat) >= 55) by {
                crate::rounding::lemma_bit_len_bounds(q as nat);
                if crate::rounding::bit_len(q as nat) < 55 {
                    crate::rounding::lemma_pow2_le(crate::rounding::bit_len(q as nat), 54);
                    assert(pow2(54) == 0x40_0000_0000_0000);
                }
            }
            crate::rounding::lemma_encode_sticky(q as nat, s as int, num, den, 53);
        }
        mag
    };
    put_sign(negative, mag)
}

/// `b` in single precision: the nearest single, ties to the one with an even last bit.
pub open spec fn narrowed(b: u64) -> u32 {
    let mag = if is_nan(b) {
        0x7fc0_0000nat
    } else if is_infinite(b) {
        0x7f80_0000nat
    } else {
        crate::rounding::at_most(crate::rounding::encode(units(b), pow2(925), 24), 0x7f80_0000)
    };
    if is_negative(b) {
        (0x8000_0000 + mag) as u32
    } else {
        mag as u32
    }
}

/// A double in single precision.
pub fn narrow(b: u64) -> (r: u32)
    ensures
        r == narrowed(b),
{
    let m: u64 = b % SIGN_BIT;
    let mag: u64 = if m > INFINITY {
        0x7fc0_0000
    } else if m == INFINITY {
        0x7f80_0000
    } else {
        let (x, e) = split(b);
        let s: i32 = e as i32 - 925;
        let mag = encode_dyadic(x as u128, s, 24, 0x7f80_0000);
        proof {
            lemma_pow2_pos(925);
            lemma_pow2_pos(e as nat);
            let num = units(b);
            if s >= 0 {
                lemma_pow2_adds(s as nat, 925);
                let n0 = x as nat * pow2(s as nat);
                assert(num == n0 * pow2(925)) by (nonlinear_arith)
                    requires
                        num == x as nat * pow2(e as nat),
                        pow2(e as nat) == pow2(s as nat) * pow2(925),
                        n0 == x as nat * pow2(s as nat),
                ;
                assert(1 * pow2(925) == pow2(925));
                crate::rounding::lemma_encode_scale(n0, 1, pow2(925), 24);
            } else {
                lemma_pow2_adds((-s) as nat, e as nat);
                lemma_pow2_pos((-s) as nat);
                crate::rounding::lemma_encode_scale(
                    x as nat,
                    pow2((-s) as nat),
                    pow2(e as nat),
                    24,
                );
            }
        }
        mag
    };
    if b >= SIGN_BIT {
        0x8000_0000 + mag as u32
    } else {
        mag as u32
    }
}

/// Whether `a` stands before `b`. A value that is no number stands beyond the infinity of its
/// sign.
pub fn stands_before(a: u64, b: u64) -> (r: bool)
    ensures
        r == (place(a) < place(b)),
{
    let ma: u64 = a % SIGN_BIT;
    let mb: u64 = b % SIGN_BIT;
    if a >= SIGN_BIT {
        if b >= SIGN_BIT {
            mb < ma
        } else {
            ma > 0 || mb > 0
        }
    } else if b >= SIGN_BIT {
        false
    } else {
        ma < mb
    }
}

/// A finite double is the nearest to its own units.
pub proof fn lemma_units_exact(b: u64)
    requires
        magnitude(b) < INFINITY,
    ensures
        crate::rounding::encode(units(b), 1, 53) == magnitude(b),
        rounded(units(b), 1) == magnitude(b),
{
    let m = magnitude(b);
    let e = m / FRACTION as nat;
    let f = m % FRACTION as nat;
    assert(pow2(0) == 1 && pow2(52) == FRACTION && pow2(53) == 2 * FRACTION) by {
        vstd::arithmetic::power2::lemma2_to64();
        vstd::arithmetic::power2::lemma2_to64_rest();
    }
    if e == 0 {
        crate::rounding::lemma_encode_exact(f, 0, 53);
        assert(f * pow2(0) == f);
    } else {
        let g = (e - 1) as nat;
        crate::rounding::lemma_encode_exact(f + FRACTION as nat, g, 53);
        assert(g * pow2(52) + (f + FRACTION as nat) == m);
    }
}

/// A greater number of units is rounded to a magnitude that is not smaller.
pub proof fn lemma_rounded_monotone(a: nat, b: nat, den: nat)
    requires
        a <= b,
        den > 0,
    ensures
        rounded(a, den) <= rounded(b, den) <= INFINITY,
{
    crate::rounding::lemma_encode_monotone(a, b, den, 53);
}

/// A greater finite magnitude has more units.
pub proof fn lemma_units_monotone(a: u64, b: u64)
    requires
        magnitude(a) <= magnitude(b) < INFINITY,
    ensures
        units(a) <= units(b),
{
    lemma_units_exact(a);
    lemma_units_exact(b);
    if units(a) > units(b) {
        lemma_rounded_monotone(units(b), units(a), 1);
        assert(magnitude(a) == magnitude(b));
    }
}

/// The product of a finite double with a factor that is not above one is not greater in magnitude
/// than the double, and with a factor that is not below one not smaller.
pub proof fn lemma_product_bounds(a: u64, factor: u64)
    requires
        magnitude(a) < INFINITY,
        magnitude(factor) < INFINITY,
    ensures
        units(factor) <= pow2(1074) ==> magnitude(product(a, factor)) <= magnitude(a),
        units(factor) >= pow2(1074) ==> magnitude(product(a, factor)) >= magnitude(a),
        magnitude(product(a, factor)) <= INFINITY,
        is_negative(product(a, factor)) == (is_negative(a) != is_negative(factor)),
        magnitude(product(a, factor)) == rounded(units(a) * units(factor), pow2(1074)),
{
    lemma_pow2_pos(1074);
    lemma_units_exact(a);
    let u = units(a) as int;
    let f = units(factor) as int;
    let one = pow2(1074) as int;
    assert(1 * pow2(1074) == pow2(1074));
    crate::rounding::lemma_encode_scale(units(a), 1, pow2(1074), 53);
    let num = units(a) * units(factor);
    let same = units(a) * pow2(1074);
    lemma_rounded_monotone(num, num, pow2(1074));
    if f <= one {
        assert(u * f <= u * one) by (nonlinear_arith)
            requires
                f <= one,
                u >= 0,
        ;
        lemma_rounded_monotone(num, same, pow2(1074));
    }
    if f >= one {
        assert(u * f >= u * one) by (nonlinear_arith)
            requires
                f >= one,
                u >= 0,
        ;
        lemma_rounded_monotone(same, num, pow2(1074));
    }
}

/// A greater factor makes a product that is not smaller in magnitude.
pub proof fn lemma_product_monotone(a: u64, small: u64, great: u64)
    requires
        magnitude(a) < INFINITY,
        magnitude(small) <= magnitude(great) < INFINITY,
    ensures
        magnitude(product(a, small)) <= magnitude(product(a, great)),
{
    lemma_units_monotone(small, great);
    lemma_pow2_pos(1074);
    lemma_product_bounds(a, small);
    lemma_product_bounds(a, great);
    let u = units(a) as int;
    let x = units(small) as int;
    let y = units(great) as int;
    assert(u * x <= u * y) by (nonlinear_arith)
        requires
            x <= y,
            u >= 0,
    ;
    lemma_rounded_monotone(units(a) * units(small), units(a) * units(great), pow2(1074));
}

/// Adding a finite double that stands no later makes a sum that stands no later.
pub proof fn lemma_sum_monotone(a: u64, x: u64, y: u64)
    requires
        magnitude(a) < INFINITY,
        magnitude(x) < INFINITY,
        magnitude(y) < INFINITY,
        place(x) <= place(y),
    ensures
        place(sum(a, x)) <= place(sum(a, y)),
{
    if is_negative(x) && is_negative(y) {
        lemma_units_monotone(y, x);
    } else if !is_negative(x) && !is_negative(y) {
        lemma_units_monotone(x, y);
    } else if !is_negative(x) {
        assert(magnitude(x) == 0 && magnitude(y) == 0);
    }
    let p = signed_units(a) + signed_units(x);
    let q = signed_units(a) + signed_units(y);
    assert(p <= q);
    if p < 0 && q < 0 {
        lemma_rounded_monotone((-q) as nat, (-p) as nat, 1);
    } else if p > 0 {
        lemma_rounded_monotone(p as nat, q as nat, 1);
    } else {
        if p < 0 {
            lemma_rounded_monotone((-p) as nat, (-p) as nat, 1);
        }
        if q > 0 {
            lemma_rounded_monotone(q as nat, q as nat, 1);
        }
    }
}

/// Adding a zero to a finite double that is no zero leaves it as it is.
pub proof fn lemma_sum_zero(a: u64, zero: u64)
    requires
        0 < magnitude(a) < INFINITY,
        magnitude(zero) == 0,
    ensures
        sum(a, zero) == a,
{
    lemma_units_exact(a);
    assert(units(zero) == 0);
    if units(a) == 0 {
        assert(crate::rounding::encode(0, 1, 53) == 0) by {
            lemma_pow2_pos(53);
            crate::rounding::lemma_encode_exact(0, 0, 53);
            assert(0nat * pow2(0) == 0);
        }
    }
    assert(units(a) > 0);
}

/// The units of a double with the given exponent field and fraction.
pub proof fn lemma_units_of(b: u64, significand: nat, exponent: nat)
    requires
        b < INFINITY,
        exponent >= 1,
        FRACTION <= significand < 2 * FRACTION,
        b == (exponent - 1) * FRACTION + significand,
    ensures
        units(b) == significand * pow2((exponent - 1) as nat),
        magnitude(b) == b,
        !is_negative(b),
{
    let f = (significand - FRACTION) as int;
    let q = exponent as int;
    let d = FRACTION as int;
    assert(b == q * d + f);
    vstd::arithmetic::div_mod::lemma_fundamental_div_mod_converse(b as int, d, q, f);
}

/// One as a double.
pub const ONE: u64 = 0x3ff0_0000_0000_0000;

/// One is two to the power 1074 units.
pub proof fn lemma_one()
    ensures
        units(ONE) == pow2(1074),
        magnitude(ONE) == ONE,
        rounded(pow2(1074), 1) == ONE,
{
    lemma_units_of(ONE, FRACTION as nat, 1023);
    lemma_pow2_adds(52, 1022);
    assert(pow2(52) == FRACTION) by {
        vstd::arithmetic::power2::lemma2_to64_rest();
    }
    lemma_units_exact(ONE);
}

/// A whole number is a finite double that is not negative, and zero for zero alone; a greater one
/// stands no earlier.
pub proof fn lemma_whole_bounds(n: u64)
    ensures
        !is_negative(of_whole(n)),
        magnitude(of_whole(n)) < INFINITY,
        magnitude(of_whole(n)) == 0 <==> n == 0,
{
    let top: u64 = 0x43f0_0000_0000_0000;
    lemma_units_of(top, FRACTION as nat, 1087);
    lemma_pow2_pos(1074);
    lemma_pow2_adds(52, 1086);
    lemma_pow2_adds(64, 1074);
    assert(pow2(52) == FRACTION && pow2(64) == 0x1_0000_0000_0000_0000) by {
        vstd::arithmetic::power2::lemma2_to64();
        vstd::arithmetic::power2::lemma2_to64_rest();
    }
    let one = pow2(1074) as int;
    let k = n as int;
    assert(k * one <= 0x1_0000_0000_0000_0000 * one) by (nonlinear_arith)
        requires
            k <= 0x1_0000_0000_0000_0000,
            one > 0,
    ;
    lemma_rounded_monotone(n as nat * pow2(1074), units(top), 1);
    lemma_units_exact(top);
    if n > 0 {
        assert(k * one >= 1) by (nonlinear_arith)
            requires
                k >= 1,
                one >= 1,
        ;
        assert(units(1) == 1 && magnitude(1) == 1);
        lemma_units_exact(1);
        lemma_rounded_monotone(1, n as nat * pow2(1074), 1);
    } else {
        assert(units(0) == 0 && magnitude(0) == 0);
        lemma_units_exact(0);
        assert(0nat * pow2(1074) == 0);
    }
}

/// A greater whole number has no fewer units as a double.
pub proof fn lemma_whole_monotone(a: u64, b: u64)
    requires
        a <= b,
    ensures
        units(of_whole(a)) <= units(of_whole(b)),
{
    lemma_whole_bounds(a);
    lemma_whole_bounds(b);
    let one = pow2(1074) as int;
    lemma_pow2_pos(1074);
    let x = a as int;
    let y = b as int;
    assert(x * one <= y * one) by (nonlinear_arith)
        requires
            x <= y,
            one > 0,
    ;
    lemma_rounded_monotone(a as nat * pow2(1074), b as nat * pow2(1074), 1);
    lemma_units_monotone(of_whole(a), of_whole(b));
}

/// A share of a whole lies between zero and one.
pub proof fn lemma_share(part: u64, whole: u64)
    requires
        part <= whole,
        whole > 0,
    ensures
        !is_negative(quotient(of_whole(part), of_whole(whole))),
        magnitude(quotient(of_whole(part), of_whole(whole))) <= ONE,
{
    lemma_whole_bounds(part);
    lemma_whole_bounds(whole);
    lemma_whole_monotone(part, whole);
    lemma_one();
    let b = of_whole(whole);
    lemma_units_exact(b);
    if units(b) == 0 {
        assert(units(0) == 0 && magnitude(0) == 0);
        lemma_units_exact(0);
    }
    let x = units(of_whole(part)) as int;
    let y = units(b) as int;
    let one = pow2(1074) as int;
    lemma_pow2_pos(1074);
    assert(x * one <= one * y) by (nonlinear_arith)
        requires
            x <= y,
            one > 0,
    ;
    assert(1 * units(b) == units(b));
    crate::rounding::lemma_encode_scale(pow2(1074), 1, units(b), 53);
    lemma_rounded_monotone(units(of_whole(part)) * pow2(1074), pow2(1074) * units(b), units(b));
}

/// The product of two doubles between zero and one is between zero and either of them.
pub proof fn lemma_product_of_shares(a: u64, b: u64)
    requires
        !is_negative(a),
        !is_negative(b),
        magnitude(a) <= ONE,
        magnitude(b) <= ONE,
    ensures
        !is_negative(product(a, b)),
        magnitude(product(a, b)) <= magnitude(a),
        magnitude(product(a, b)) <= magnitude(b),
{
    lemma_one();
    lemma_units_monotone(a, ONE);
    lemma_units_monotone(b, ONE);
    lemma_product_bounds(a, b);
    lemma_product_bounds(b, a);
    let x = units(a) as int;
    let y = units(b) as int;
    assert(x * y == y * x) by (nonlinear_arith);
}

/// The product of a finite double with a zero is a zero.
pub proof fn lemma_product_zero(a: u64, zero: u64)
    requires
        magnitude(a) < INFINITY,
        magnitude(zero) == 0,
    ensures
        magnitude(product(a, zero)) == 0,
{
    lemma_product_bounds(a, zero);
    assert(units(zero) == 0);
    assert(units(a) * 0 == 0);
    assert(units(0) == 0 && magnitude(0) == 0);
    lemma_units_exact(0);
    lemma_pow2_pos(1074);
    assert(0 * pow2(1074) == 0 && 1 * pow2(1074) == pow2(1074));
    crate::rounding::lemma_encode_scale(0, 1, pow2(1074), 53);
}

} // verus!
