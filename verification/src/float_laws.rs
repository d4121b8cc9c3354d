//! What the arithmetic on doubles is for: values, their order, and whole numbers.
use crate::float64::{
    is_negative, is_nan, lemma_rounded_monotone, lemma_units_exact, lemma_units_monotone,
    lemma_units_of, less, magnitude, of_whole, opposite, place, product, quotient, rounded,
    rounded_to_u64, signed_units, sum, truncated_to_u64, units, FRACTION, INFINITY, SIGN_BIT,
};
use vstd::arithmetic::power2::{lemma_pow2_adds, lemma_pow2_pos, pow2};
use vstd::prelude::*;

verus! {

/// The whole numbers that a double holds without rounding, as far as they are used here.
pub const WHOLE_LIMIT: u64 = 0x20_0000_0000_0000;

/// A whole number below the limit is held exactly: as many times one as it says.
pub proof fn law_whole_is_exact(n: u64)
    requires
        n < WHOLE_LIMIT,
    ensures
        units(of_whole(n)) == n * pow2(1074),
        signed_units(of_whole(n)) == n * pow2(1074),
        magnitude(of_whole(n)) < INFINITY,
        !is_negative(of_whole(n)),
{
    lemma_pow2_pos(1074);
    crate::float64::lemma_whole_bounds(n);
    let one = pow2(1074);
    let num = n as nat * one;
    assert(pow2(52) == FRACTION && pow2(53) == 2 * FRACTION) by {
        vstd::arithmetic::power2::lemma2_to64_rest();
    }
    if n == 0 {
        assert(0 * one == 0);
        assert(units(0) == 0 && magnitude(0) == 0);
        lemma_units_exact(0);
    } else {
        crate::rounding::lemma_bit_len_bounds(n as nat);
        let k = crate::rounding::bit_len(n as nat);
        if k > 53 {
            crate::rounding::lemma_pow2_le(53, (k - 1) as nat);
        }
        let h = (53 - k) as nat;
        let m = n as nat * pow2(h);
        let g = (1074 - h) as nat;
        lemma_pow2_adds(h, g);
        lemma_pow2_adds((k - 1) as nat, h);
        lemma_pow2_adds(k, h);
        lemma_pow2_pos(h);
        let (a, b, c) = (n as int, pow2(h) as int, pow2(g) as int);
        let (low, high) = (pow2((k - 1) as nat) as int, pow2(k) as int);
        assert(low * b <= a * b < high * b) by (nonlinear_arith)
            requires
                low <= a < high,
                b > 0,
        ;
        assert((a * b) * c == a * (b * c)) by (nonlinear_arith);
        crate::rounding::lemma_encode_exact(m, g, 53);
        let bits = g * FRACTION as nat + m;
        assert(crate::rounding::encode(num, 1, 53) == bits);
        assert(bits < INFINITY) by (nonlinear_arith)
            requires
                g <= 1074,
                m < 2 * FRACTION,
                bits == g * FRACTION as nat + m,
        ;
        lemma_units_of(bits as u64, m, g + 1);
    }
}

/// Sums of whole numbers are exact.
pub proof fn law_sum_of_wholes(a: u64, b: u64)
    requires
        a + b < WHOLE_LIMIT,
    ensures
        sum(of_whole(a), of_whole(b)) == of_whole((a + b) as u64),
{
    law_whole_is_exact(a);
    law_whole_is_exact(b);
    law_whole_is_exact((a + b) as u64);
    lemma_pow2_pos(1074);
    let one = pow2(1074) as int;
    let (x, y) = (a as int, b as int);
    assert(x * one + y * one == (x + y) * one) by (nonlinear_arith);
    if a + b == 0 {
        assert(0 * one == 0);
        assert(units(0) == 0 && magnitude(0) == 0);
        lemma_units_exact(0);
        assert(of_whole(0) == 0);
    } else {
        assert((x + y) * one > 0) by (nonlinear_arith)
            requires
                x + y > 0,
                one > 0,
        ;
    }
}

/// Differences of whole numbers are exact.
pub proof fn law_difference_of_wholes(a: u64, b: u64)
    requires
        b <= a < WHOLE_LIMIT,
    ensures
        sum(of_whole(a), opposite(of_whole(b))) == of_whole((a - b) as u64),
{
    law_whole_is_exact(a);
    law_whole_is_exact(b);
    lemma_pow2_pos(1074);
    let w = of_whole(b);
    let v = opposite(w);
    assert(w < SIGN_BIT);
    assert(v == w + SIGN_BIT);
    assert(magnitude(v) == magnitude(w) && is_negative(v));
    assert(units(v) == units(w));
    let one = pow2(1074) as int;
    let (x, y) = (a as int, b as int);
    assert(x * one - y * one == (x - y) * one) by (nonlinear_arith);
    if a == b {
        assert(0 * one == 0);
        assert(units(0) == 0 && magnitude(0) == 0);
        lemma_units_exact(0);
        assert(of_whole(0) == 0);
    } else {
        assert((x - y) * one > 0) by (nonlinear_arith)
            requires
                x - y > 0,
                one > 0,
        ;
    }
}

/// Products of whole numbers are exact.
pub proof fn law_product_of_wholes(a: u64, b: u64)
    requires
        a < WHOLE_LIMIT,
        b < WHOLE_LIMIT,
        a * b < WHOLE_LIMIT,
    ensures
        product(of_whole(a), of_whole(b)) == of_whole((a * b) as u64),
{
    law_whole_is_exact(a);
    law_whole_is_exact(b);
    lemma_pow2_pos(1074);
    let one = pow2(1074);
    let (x, y, o) = (a as int, b as int, one as int);
    let ab = (a * b) as nat;
    assert((x * o) * (y * o) == ((x * y) * o) * o) by (nonlinear_arith);
    assert(1 * one == one);
    crate::rounding::lemma_encode_scale(ab * one, 1, one, 53);
}

/// The quotient of a multiple by what it is a multiple of is exact.
pub proof fn law_quotient_of_wholes(a: u64, b: u64)
    requires
        b > 0,
        a < WHOLE_LIMIT,
        b < WHOLE_LIMIT,
        a * b < WHOLE_LIMIT,
    ensures
        quotient(of_whole((a * b) as u64), of_whole(b)) == of_whole(a),
{
    law_whole_is_exact(a);
    law_whole_is_exact(b);
    law_whole_is_exact((a * b) as u64);
    crate::float64::lemma_whole_bounds(b);
    lemma_pow2_pos(1074);
    let one = pow2(1074);
    let (x, y, o) = (a as int, b as int, one as int);
    let den = (y * o) as nat;
    assert(((x * y) * o) * o == (x * o) * (y * o)) by (nonlinear_arith);
    assert(y * o > 0) by (nonlinear_arith)
        requires
            y > 0,
            o > 0,
    ;
    assert(1 * den == den);
    crate::rounding::lemma_encode_scale(a as nat * one, 1, den, 53);
}

/// Whole numbers come back from doubles as they were.
pub proof fn law_whole_reads_back(n: u64)
    requires
        n < WHOLE_LIMIT,
    ensures
        rounded_to_u64(of_whole(n)) == n,
        truncated_to_u64(of_whole(n)) == n,
{
    law_whole_is_exact(n);
    lemma_pow2_pos(1074);
    lemma_pow2_adds(1, 1074);
    assert(pow2(1) == 2) by {
        vstd::arithmetic::power2::lemma2_to64();
    }
    let (k, o) = (n as int, pow2(1074) as int);
    assert((2 * (k * o) + o) / (2 * o) == k) by {
        assert(2 * (k * o) + o == k * (2 * o) + o) by (nonlinear_arith);
        vstd::arithmetic::div_mod::lemma_fundamental_div_mod_converse(
            2 * (k * o) + o,
            2 * o,
            k,
            o,
        );
    }
    assert((k * o) / o == k) by {
        vstd::arithmetic::div_mod::lemma_fundamental_div_mod_converse(k * o, o, k, 0);
    }
}

/// Finite doubles are ordered as the values that they stand for.
pub proof fn law_order_is_that_of_values(a: u64, b: u64)
    requires
        magnitude(a) < INFINITY,
        magnitude(b) < INFINITY,
    ensures
        less(a, b) <==> signed_units(a) < signed_units(b),
        place(a) <= place(b) <==> signed_units(a) <= signed_units(b),
        place(a) == place(b) <==> signed_units(a) == signed_units(b),
{
    lemma_units_exact(a);
    lemma_units_exact(b);
    lemma_units_exact(0);
    assert(units(0) == 0 && magnitude(0) == 0);
    if magnitude(a) <= magnitude(b) {
        lemma_units_monotone(a, b);
    } else {
        lemma_units_monotone(b, a);
    }
}

/// An infinity stands beyond every finite double of its sign, and an undefined value nowhere.
pub proof fn law_order_of_the_others(a: u64, b: u64)
    ensures
        magnitude(a) < INFINITY && magnitude(b) == INFINITY ==> less(a, b) == !is_negative(b)
            && less(b, a) == is_negative(b),
        is_nan(a) || is_nan(b) ==> !less(a, b),
        less(a, b) ==> !less(b, a),
{
}

/// A sum and a product do not depend on the order of their parts.
pub proof fn law_sum_and_product_commute(a: u64, b: u64)
    requires
        !is_nan(a),
        !is_nan(b),
    ensures
        sum(a, b) == sum(b, a),
        product(a, b) == product(b, a),
{
    let (x, y) = (units(a) as int, units(b) as int);
    assert(x * y == y * x) by (nonlinear_arith);
}

/// A result is the exact value wherever a double holds the exact value.
pub proof fn law_exact_results(a: u64, b: u64, c: u64)
    requires
        magnitude(a) < INFINITY,
        magnitude(b) < INFINITY,
        magnitude(c) < INFINITY,
    ensures
        signed_units(a) + signed_units(b) == signed_units(c) ==> place(sum(a, b)) == place(c),
        signed_units(a) * signed_units(b) == signed_units(c) * pow2(1074) ==> place(product(a, b))
            == place(c),
        signed_units(b) != 0 && signed_units(a) * pow2(1074) == signed_units(c) * signed_units(b)
            ==> place(quotient(a, b)) == place(c),
{
    lemma_pow2_pos(1074);
    lemma_units_exact(c);
    lemma_units_exact(0);
    assert(units(0) == 0 && magnitude(0) == 0);
    let one = pow2(1074);
    let (x, y, z, o) = (units(a) as int, units(b) as int, units(c) as int, one as int);
    assert(z * o >= 0 && x * y >= 0 && x * o >= 0 && z * y >= 0) by (nonlinear_arith)
        requires
            x >= 0,
            y >= 0,
            z >= 0,
            o > 0,
    ;
    assert(z > 0 ==> z * o > 0) by (nonlinear_arith)
        requires
            o > 0,
    ;
    lemma_sign_of_product(signed_units(a), signed_units(b), x, y);
    lemma_sign_of_product(signed_units(c), o, z, o);
    lemma_sign_of_product(signed_units(a), o, x, o);
    lemma_sign_of_product(signed_units(c), signed_units(b), z, y);
    assert(1 * one == one);
    if signed_units(a) * signed_units(b) == signed_units(c) * pow2(1074) {
        assert(x * y == z * o);
        crate::rounding::lemma_encode_scale(units(c), 1, one, 53);
        assert(magnitude(product(a, b)) == magnitude(c));
        if z == 0 {
            assert(magnitude(c) == 0);
        } else {
            assert(x > 0 && y > 0) by (nonlinear_arith)
                requires
                    x * y == z * o,
                    z * o > 0,
                    x >= 0,
                    y >= 0,
            ;
            assert(is_negative(product(a, b)) == is_negative(c));
        }
    }
    if signed_units(b) != 0 && signed_units(a) * pow2(1074) == signed_units(c) * signed_units(b) {
        assert(x * o == z * y);
        assert(1 * units(b) == units(b));
        crate::rounding::lemma_encode_scale(units(c), 1, units(b), 53);
        assert(magnitude(b) != 0);
        assert(z > 0 ==> z * y > 0) by (nonlinear_arith)
            requires
                y > 0,
        ;
        if z == 0 {
            assert(z * y == 0) by (nonlinear_arith)
                requires
                    z == 0,
            ;
            assert(x == 0) by (nonlinear_arith)
                requires
                    x * o == 0,
                    o > 0,
                    x >= 0,
            ;
            assert(magnitude(c) == 0);
        } else {
            assert(x != 0) by (nonlinear_arith)
                requires
                    x * o == z * y,
                    z * y > 0,
            ;
        }
        assert(magnitude(quotient(a, b)) == magnitude(c));
    }
}

proof fn lemma_sign_of_product(p: int, q: int, x: int, y: int)
    requires
        p == x || p == -x,
        q == y || q == -y,
        x >= 0,
        y >= 0,
    ensures
        p * q == x * y || p * q == -(x * y),
        x * y >= 0,
        (p < 0) == (q < 0) ==> p * q >= 0,
        (p < 0) != (q < 0) ==> p * q <= 0,
{
    assert(p * q == x * y || p * q == -(x * y)) by (nonlinear_arith)
        requires
            p == x || p == -x,
            q == y || q == -y,
    ;
    assert(x * y >= 0) by (nonlinear_arith)
        requires
            x >= 0,
            y >= 0,
    ;
    assert((p < 0) == (q < 0) ==> p * q >= 0) by (nonlinear_arith);
    assert((p < 0) != (q < 0) ==> p * q <= 0) by (nonlinear_arith);
}

/// Doubles below this magnitude can be doubled.
pub const HALF_RANGE: u64 = 0x7fe0_0000_0000_0000;

/// Twice a double is a double.
pub proof fn lemma_twice(b: u64) -> (d: u64)
    requires
        magnitude(b) < HALF_RANGE,
    ensures
        signed_units(d) == 2 * signed_units(b),
        magnitude(d) < INFINITY,
        is_negative(d) == is_negative(b),
{
    let m = magnitude(b) as int;
    let e = m / FRACTION as int;
    let f = m % FRACTION as int;
    lemma_pow2_pos(0);
    assert(pow2(0) == 1) by {
        vstd::arithmetic::power2::lemma2_to64();
    }
    let mag: int = if e == 0 {
        2 * m
    } else {
        m + FRACTION
    };
    let d: u64 = if is_negative(b) {
        (SIGN_BIT + mag) as u64
    } else {
        mag as u64
    };
    assert(magnitude(d) == mag);
    if e == 0 {
        assert(units(b) == m);
        if 2 * m >= FRACTION {
            assert(mag / FRACTION as int == 1 && mag % FRACTION as int == 2 * m - FRACTION);
            assert(2 * m * 1 == 2 * m);
        }
        assert(units(d) == 2 * m);
    } else {
        assert(mag / FRACTION as int == e + 1 && mag % FRACTION as int == f);
        vstd::arithmetic::power2::lemma_pow2_unfold(e as nat);
        let (x, y) = ((f + FRACTION) as int, pow2((e - 1) as nat) as int);
        assert(x * (2 * y) == 2 * (x * y)) by (nonlinear_arith);
    }
    d
}

/// Dividing by a positive double keeps the order.
pub proof fn law_quotient_keeps_order(x: u64, y: u64, d: u64)
    requires
        magnitude(x) < INFINITY,
        magnitude(y) < INFINITY,
        0 < magnitude(d) < INFINITY,
        !is_negative(d),
        place(x) <= place(y),
    ensures
        place(quotient(x, d)) <= place(quotient(y, d)),
{
    lemma_pow2_pos(1074);
    lemma_units_exact(d);
    lemma_units_exact(0);
    assert(units(0) == 0 && magnitude(0) == 0);
    let (a, b) = (units(x) * pow2(1074), units(y) * pow2(1074));
    let (p, q, o) = (units(x) as int, units(y) as int, pow2(1074) as int);
    lemma_rounded_monotone(a, a, units(d));
    lemma_rounded_monotone(b, b, units(d));
    if magnitude(x) <= magnitude(y) {
        lemma_units_monotone(x, y);
        assert(p * o <= q * o) by (nonlinear_arith)
            requires
                p <= q,
                o > 0,
        ;
        lemma_rounded_monotone(a, b, units(d));
    } else {
        lemma_units_monotone(y, x);
        assert(q * o <= p * o) by (nonlinear_arith)
            requires
                q <= p,
                o > 0,
        ;
        lemma_rounded_monotone(b, a, units(d));
    }
    if is_negative(x) != is_negative(y) && !is_negative(x) {
        assert(magnitude(x) == 0 && magnitude(y) == 0);
        assert(p * o == 0 && q * o == 0) by (nonlinear_arith)
            requires
                p == 0,
                q == 0,
        ;
        assert(1 * units(d) == units(d) && 0 * units(d) == 0);
        crate::rounding::lemma_encode_scale(0, 1, units(d), 53);
    }
}

/// Two as a double.
pub proof fn lemma_two()
    ensures
        units(of_whole(2)) == 2 * pow2(1074),
        of_whole(2) == 0x4000_0000_0000_0000,
        signed_units(of_whole(2)) == 2 * pow2(1074),
        0 < magnitude(of_whole(2)) < INFINITY,
        !is_negative(of_whole(2)),
{
    law_whole_is_exact(2);
    crate::float64::lemma_whole_bounds(2);
    let two: u64 = 0x4000_0000_0000_0000;
    lemma_units_of(two, FRACTION as nat, 1024);
    lemma_pow2_adds(52, 1023);
    lemma_pow2_adds(1, 1074);
    assert(pow2(52) == FRACTION && pow2(1) == 2) by {
        vstd::arithmetic::power2::lemma2_to64();
        vstd::arithmetic::power2::lemma2_to64_rest();
    }
    lemma_units_exact(two);
    lemma_units_exact(of_whole(2));
}

/// The mean of two doubles lies between them, and is their exact mean wherever a double holds it.
pub proof fn law_mean_lies_between(a: u64, b: u64, h: u64)
    requires
        magnitude(a) < HALF_RANGE,
        magnitude(b) < HALF_RANGE,
        place(a) <= place(b),
        magnitude(h) < INFINITY,
    ensures
        place(a) <= place(quotient(sum(a, b), of_whole(2))) <= place(b),
        2 * signed_units(h) == signed_units(a) + signed_units(b) ==> place(
            quotient(sum(a, b), of_whole(2)),
        ) == place(h),
{
    lemma_two();
    let two = of_whole(2);
    let one = pow2(1074) as int;
    let da = lemma_twice(a);
    let db = lemma_twice(b);
    law_exact_results(a, a, da);
    law_exact_results(b, b, db);
    crate::float64::lemma_sum_monotone(a, a, b);
    crate::float64::lemma_sum_monotone(b, a, b);
    law_sum_and_product_commute(a, b);
    let s = sum(a, b);
    assert(place(da) <= place(s) <= place(db));
    lemma_rounded_monotone(0, 0, 1);
    assert(magnitude(s) < INFINITY);
    law_quotient_keeps_order(da, s, two);
    law_quotient_keeps_order(s, db, two);
    lemma_halves(da, a);
    lemma_halves(db, b);
    if 2 * signed_units(h) == signed_units(a) + signed_units(b) {
        law_order_is_that_of_values(a, b);
        law_order_is_that_of_values(a, h);
        law_order_is_that_of_values(h, b);
        assert(magnitude(h) < HALF_RANGE);
        let dh = lemma_twice(h);
        law_exact_results(a, b, dh);
        law_quotient_keeps_order(s, dh, two);
        law_quotient_keeps_order(dh, s, two);
        lemma_halves(dh, h);
    }
}

/// Half of twice a double is the double.
proof fn lemma_halves(d: u64, b: u64)
    requires
        magnitude(d) < INFINITY,
        magnitude(b) < INFINITY,
        signed_units(d) == 2 * signed_units(b),
    ensures
        place(quotient(d, of_whole(2))) == place(b),
{
    lemma_two();
    lemma_pow2_pos(1074);
    let (x, o) = (signed_units(b), pow2(1074) as int);
    assert((2 * x) * o == x * (2 * o)) by (nonlinear_arith);
    law_exact_results(d, of_whole(2), b);
}

/// No double lies between a fraction and what it is rounded to.
proof fn lemma_rounded_faithful(num: nat, den: nat, c: u64)
    requires
        den > 0,
        magnitude(c) < INFINITY,
    ensures
        units(c) * den <= num ==> magnitude(c) <= rounded(num, den),
        units(c) * den >= num ==> magnitude(c) >= rounded(num, den),
{
    lemma_units_exact(c);
    assert(1 * den == den);
    crate::rounding::lemma_encode_scale(units(c), 1, den, 53);
    if units(c) * den <= num {
        lemma_rounded_monotone(units(c) * den, num, den);
    }
    if units(c) * den >= num {
        lemma_rounded_monotone(num, units(c) * den, den);
    }
}

/// No double lies between the exact sum of two doubles and the sum as it is rounded.
pub proof fn law_sum_is_faithful(a: u64, b: u64, c: u64)
    requires
        magnitude(a) < INFINITY,
        magnitude(b) < INFINITY,
        magnitude(c) < INFINITY,
    ensures
        signed_units(c) <= signed_units(a) + signed_units(b) ==> place(c) <= place(sum(a, b)),
        signed_units(c) >= signed_units(a) + signed_units(b) ==> place(c) >= place(sum(a, b)),
{
    let x = signed_units(a) + signed_units(b);
    lemma_units_exact(c);
    lemma_units_exact(0);
    assert(units(0) == 0 && magnitude(0) == 0);
    if x < 0 {
        lemma_rounded_faithful((-x) as nat, 1, c);
        lemma_rounded_monotone(0, (-x) as nat, 1);
    } else {
        lemma_rounded_faithful(x as nat, 1, c);
        lemma_rounded_monotone(0, x as nat, 1);
    }
}

/// No double lies between the exact product of two doubles and the product as it is rounded.
pub proof fn law_product_is_faithful(a: u64, b: u64, c: u64)
    requires
        magnitude(a) < INFINITY,
        magnitude(b) < INFINITY,
        magnitude(c) < INFINITY,
    ensures
        signed_units(c) * pow2(1074) <= signed_units(a) * signed_units(b) ==> place(c) <= place(
            product(a, b),
        ),
        signed_units(c) * pow2(1074) >= signed_units(a) * signed_units(b) ==> place(c) >= place(
            product(a, b),
        ),
{
    lemma_pow2_pos(1074);
    let one = pow2(1074);
    let (x, y, z, o) = (units(a) as int, units(b) as int, units(c) as int, one as int);
    lemma_sign_of_product(signed_units(a), signed_units(b), x, y);
    lemma_sign_of_product(signed_units(c), o, z, o);
    assert(x * y > 0 ==> x > 0 && y > 0) by (nonlinear_arith)
        requires
            x >= 0,
            y >= 0,
    ;
    lemma_fraction_faithful(
        units(a) * units(b),
        one,
        is_negative(a) != is_negative(b),
        c,
        signed_units(a) * signed_units(b),
    );
}

/// A fraction with a sign, rounded: no double lies between.
proof fn lemma_fraction_faithful(num: nat, den: nat, negative: bool, c: u64, exact: int)
    requires
        den > 0,
        magnitude(c) < INFINITY,
        exact == num || exact == -(num as int),
        num > 0 ==> (exact < 0 <==> negative),
    ensures
        ({
            let r = crate::float64::with_sign(negative, rounded(num, den));
            &&& signed_units(c) * den <= exact ==> place(c) <= place(r)
            &&& signed_units(c) * den >= exact ==> place(c) >= place(r)
            &&& magnitude(r) == rounded(num, den)
        }),
{
    lemma_units_exact(c);
    lemma_units_exact(0);
    assert(units(0) == 0 && magnitude(0) == 0);
    lemma_rounded_faithful(num, den, c);
    lemma_rounded_monotone(0, num, den);
    lemma_rounded_monotone(num, num, den);
    let (z, d) = (units(c) as int, den as int);
    lemma_sign_of_product(signed_units(c), d, z, d);
    assert(z > 0 ==> z * d > 0) by (nonlinear_arith)
        requires
            d > 0,
    ;
    assert(z == 0 ==> z * d == 0) by (nonlinear_arith);
    assert(0 * den == 0);
    lemma_rounded_faithful(num, den, 0);
}

/// No double lies between the exact quotient of two doubles and the quotient as it is rounded. The
/// divisor is taken to be positive.
pub proof fn law_quotient_is_faithful(a: u64, b: u64, c: u64)
    requires
        magnitude(a) < INFINITY,
        0 < magnitude(b) < INFINITY,
        !is_negative(b),
        magnitude(c) < INFINITY,
    ensures
        signed_units(c) * units(b) <= signed_units(a) * pow2(1074) ==> place(c) <= place(
            quotient(a, b),
        ),
        signed_units(c) * units(b) >= signed_units(a) * pow2(1074) ==> place(c) >= place(
            quotient(a, b),
        ),
        units(b) > 0,
{
    lemma_pow2_pos(1074);
    lemma_units_exact(b);
    lemma_units_exact(0);
    assert(units(0) == 0 && magnitude(0) == 0);
    let one = pow2(1074);
    let (x, o) = (units(a) as int, one as int);
    lemma_sign_of_product(signed_units(a), o, x, o);
    assert(units(b) > 0);
    assert(x * o > 0 ==> x > 0) by (nonlinear_arith)
        requires
            x >= 0,
            o > 0,
    ;
    let exact = signed_units(a) * o;
    assert(exact == if is_negative(a) { -(x * o) } else { x * o }) by (nonlinear_arith)
        requires
            exact == signed_units(a) * o,
            signed_units(a) == if is_negative(a) { -x } else { x },
    ;
    lemma_fraction_faithful(
        units(a) * one,
        units(b),
        is_negative(a),
        c,
        exact,
    );
}

/// The units of what a fraction is rounded to, and how far they are from it.
proof fn lemma_rounded_units(num: nat, den: nat, g: nat, q: nat)
    requires
        den > 0,
        rounded(num, den) < INFINITY,
        g == if crate::rounding::bit_len(num / den) > 53 {
            (crate::rounding::bit_len(num / den) - 53) as nat
        } else {
            0
        },
        q == crate::rounding::nearest_even(num, den * pow2(g)),
    ensures
        units(rounded(num, den) as u64) == q * pow2(g),
        2 * (q * pow2(g) * den - num) <= den * pow2(g),
        2 * (num - q * pow2(g) * den) <= den * pow2(g),
{
    crate::rounding::lemma_nearest_bounds(num, den, 53, g);
    lemma_pow2_pos(g);
    assert(pow2(0) == 1 && pow2(52) == FRACTION && pow2(53) == 2 * FRACTION) by {
        vstd::arithmetic::power2::lemma2_to64();
        vstd::arithmetic::power2::lemma2_to64_rest();
    }
    let b = rounded(num, den) as u64;
    let f = FRACTION as int;
    assert(b == g * FRACTION + q);
    assert(magnitude(b) == b);
    let (gi, qi) = (g as int, q as int);
    if g == 0 && q < FRACTION {
        assert(gi * f == 0) by (nonlinear_arith)
            requires
                gi == 0,
        ;
        assert(b as int / f == 0 && b as int % f == qi);
        assert(q * 1 == q);
    } else if q == 2 * FRACTION {
        assert(gi * f + 2 * f == (gi + 2) * f + 0) by (nonlinear_arith);
        vstd::arithmetic::div_mod::lemma_fundamental_div_mod_converse(b as int, f, gi + 2, 0);
        vstd::arithmetic::power2::lemma_pow2_unfold(g + 1);
        let c = pow2(g) as int;
        assert(f * (2 * c) == (2 * f) * c) by (nonlinear_arith);
    } else {
        assert(gi * f + qi == (gi + 1) * f + (qi - f)) by (nonlinear_arith);
        vstd::arithmetic::div_mod::lemma_fundamental_div_mod_converse(
            b as int,
            f,
            gi + 1,
            qi - f,
        );
    }
    let (n, d, c) = (num as int, den as int, pow2(g) as int);
    let w = d * c;
    assert(w > 0) by (nonlinear_arith)
        requires
            d > 0,
            c > 0,
            w == d * c,
    ;
    vstd::arithmetic::div_mod::lemma_fundamental_div_mod(n, w);
    vstd::arithmetic::div_mod::lemma_mod_bound(n, w);
    let (t, r) = (n / w, n % w);
    assert(qi * c * d == qi * w) by (nonlinear_arith)
        requires
            w == d * c,
    ;
    assert(t * w == w * t) by (nonlinear_arith);
    assert((t + 1) * w == w * t + w) by (nonlinear_arith);
}

/// What a fraction below a power of two is rounded to is off by no more than half a step of the
/// doubles below that power.
pub proof fn law_rounding_error(num: nat, den: nat, e: nat)
    requires
        den > 0,
        53 <= e <= 2000,
        num <= den * pow2(e),
    ensures
        rounded(num, den) < INFINITY,
        2 * (units(rounded(num, den) as u64) * den - num) <= den * pow2((e - 53) as nat),
        2 * (num - units(rounded(num, den) as u64) * den) <= den * pow2((e - 53) as nat),
{
    lemma_pow2_pos(e);
    lemma_pow2_pos((e - 53) as nat);
    assert(pow2(0) == 1 && pow2(52) == FRACTION && pow2(53) == 2 * FRACTION) by {
        vstd::arithmetic::power2::lemma2_to64();
        vstd::arithmetic::power2::lemma2_to64_rest();
    }
    let g = (e - 52) as nat;
    let bits = g * FRACTION as nat + FRACTION as nat;
    assert(bits < INFINITY) by (nonlinear_arith)
        requires
            g <= 1948,
            bits == g * FRACTION as nat + FRACTION as nat,
    ;
    lemma_units_of(bits as u64, FRACTION as nat, g + 1);
    lemma_pow2_adds(52, g);
    assert(units(bits as u64) == pow2(e));
    let (n, d, p, s) = (num as int, den as int, pow2(e) as int, pow2((e - 53) as nat) as int);
    assert(d * p == p * d) by (nonlinear_arith);
    assert(d * s >= 0) by (nonlinear_arith)
        requires
            d > 0,
            s > 0,
    ;
    lemma_rounded_faithful(num, den, bits as u64);
    if num == den * pow2(e) {
        assert(rounded(num, den) == bits);
    } else {
        let v = num / den;
        vstd::arithmetic::div_mod::lemma_fundamental_div_mod(n, d);
        vstd::arithmetic::div_mod::lemma_mod_bound(n, d);
        assert(v < pow2(e)) by (nonlinear_arith)
            requires
                n == d * (v as int) + n % d,
                0 <= n % d,
                n < d * p,
                d > 0,
                p == pow2(e),
        ;
        let k = crate::rounding::bit_len(v);
        if v > 0 {
            crate::rounding::lemma_bit_len_bounds(v);
            if k > e {
                crate::rounding::lemma_pow2_le(e, (k - 1) as nat);
            }
        }
        assert(k <= e);
        let h: nat = if k > 53 {
            (k - 53) as nat
        } else {
            0
        };
        let q = crate::rounding::nearest_even(num, den * pow2(h));
        lemma_rounded_units(num, den, h, q);
        crate::rounding::lemma_pow2_le(h, (e - 53) as nat);
        let c = pow2(h) as int;
        assert(d * c <= d * s) by (nonlinear_arith)
            requires
                c <= s,
                d > 0,
        ;
    }
}

/// A sum between minus one and one is off by no more than half the step of the doubles below one.
pub proof fn law_sum_error(a: u64, b: u64)
    requires
        magnitude(a) < INFINITY,
        magnitude(b) < INFINITY,
        -(pow2(1074) as int) <= signed_units(a) + signed_units(b) <= pow2(1074),
    ensures
        magnitude(sum(a, b)) < INFINITY,
        2 * (signed_units(sum(a, b)) - (signed_units(a) + signed_units(b))) <= pow2(1021),
        2 * ((signed_units(a) + signed_units(b)) - signed_units(sum(a, b))) <= pow2(1021),
{
    let x = signed_units(a) + signed_units(b);
    let size: nat = if x < 0 {
        (-x) as nat
    } else {
        x as nat
    };
    lemma_pow2_pos(1021);
    law_rounding_error(size, 1, 1074);
    let m = rounded(size, 1);
    assert(units(m as u64) * 1 == units(m as u64));
    assert(1 * pow2(1021) == pow2(1021) && 1 * pow2(1074) == pow2(1074));
    if x == 0 {
        assert(units(0) == 0 && magnitude(0) == 0);
        assert(units(SIGN_BIT) == 0 && magnitude(SIGN_BIT) == 0);
    } else {
        lemma_signed_units_of(x < 0, m);
    }
}

proof fn lemma_signed_units_of(negative: bool, m: nat)
    requires
        m < INFINITY,
    ensures
        ({
            let r = crate::float64::with_sign(negative, m);
            &&& magnitude(r) == m
            &&& is_negative(r) == negative
            &&& units(r) == units(m as u64)
        }),
{
    let r = crate::float64::with_sign(negative, m);
    assert(magnitude(r) == m && magnitude(m as u64) == m);
}

/// A product of two doubles between minus one and one is off by no more than half the step of the
/// doubles below one.
pub proof fn law_product_error(a: u64, b: u64)
    requires
        magnitude(a) < INFINITY,
        magnitude(b) < INFINITY,
        units(a) <= pow2(1074),
        units(b) <= pow2(1074),
    ensures
        magnitude(product(a, b)) < INFINITY,
        2 * (signed_units(product(a, b)) * pow2(1074) - signed_units(a) * signed_units(b)) <= pow2(
            1074,
        ) * pow2(1021),
        2 * (signed_units(a) * signed_units(b) - signed_units(product(a, b)) * pow2(1074)) <= pow2(
            1074,
        ) * pow2(1021),
{
    lemma_pow2_pos(1074);
    let one = pow2(1074);
    let (x, y, o) = (units(a) as int, units(b) as int, one as int);
    assert(x * y <= o * o) by (nonlinear_arith)
        requires
            0 <= x <= o,
            0 <= y <= o,
    ;
    law_rounding_error(units(a) * units(b), one, 1074);
    let m = rounded(units(a) * units(b), one);
    let negative = is_negative(a) != is_negative(b);
    lemma_signed_units_of(negative, m);
    let u = units(m as u64) as int;
    let (p, q) = (signed_units(a), signed_units(b));
    assert(p * q == if negative { -(x * y) } else { x * y }) by (nonlinear_arith)
        requires
            p == x || p == -x,
            q == y || q == -y,
            negative ==> (p == x && q == -y) || (p == -x && q == y),
            !negative ==> (p == x && q == y) || (p == -x && q == -y),
    ;
    assert((-u) * o == -(u * o)) by (nonlinear_arith);
}

/// A quotient between zero and one is off by no more than half the step of the doubles below one.
pub proof fn law_quotient_error(a: u64, b: u64)
    requires
        !is_negative(a),
        !is_negative(b),
        magnitude(a) < INFINITY,
        0 < magnitude(b) < INFINITY,
        units(a) <= units(b),
    ensures
        magnitude(quotient(a, b)) < INFINITY,
        !is_negative(quotient(a, b)),
        2 * (units(quotient(a, b)) * units(b) - units(a) * pow2(1074)) <= units(b) * pow2(1021),
        2 * (units(a) * pow2(1074) - units(quotient(a, b)) * units(b)) <= units(b) * pow2(1021),
        units(b) > 0,
{
    lemma_pow2_pos(1074);
    lemma_units_exact(b);
    lemma_units_exact(0);
    assert(units(0) == 0 && magnitude(0) == 0);
    let (x, y, o) = (units(a) as int, units(b) as int, pow2(1074) as int);
    assert(x * o <= y * o) by (nonlinear_arith)
        requires
            x <= y,
            o > 0,
    ;
    law_rounding_error(units(a) * pow2(1074), units(b), 1074);
    lemma_signed_units_of(false, rounded(units(a) * pow2(1074), units(b)));
}

// ---------------------------------------------------------------------------
// Single precision
// ---------------------------------------------------------------------------

/// The value of the magnitude of a finite single, in units of two to the power -149.
pub open spec fn single_units(s: u32) -> nat {
    let m = (s % 0x8000_0000) as nat;
    let e = m / 0x80_0000;
    let f = m % 0x80_0000;
    if e == 0 {
        f
    } else {
        (f + 0x80_0000) * pow2((e - 1) as nat)
    }
}

proof fn lemma_single_exact(s: u32)
    requires
        s % 0x8000_0000 < 0x7f80_0000,
    ensures
        crate::rounding::encode(single_units(s), 1, 24) == s % 0x8000_0000,
{
    let m = (s % 0x8000_0000) as nat;
    let e = m / 0x80_0000;
    let f = m % 0x80_0000;
    assert(pow2(0) == 1 && pow2(23) == 0x80_0000 && pow2(24) == 0x100_0000) by {
        vstd::arithmetic::power2::lemma2_to64();
    }
    if e == 0 {
        crate::rounding::lemma_encode_exact(f, 0, 24);
        assert(f * pow2(0) == f);
    } else {
        let g = (e - 1) as nat;
        crate::rounding::lemma_encode_exact(f + 0x80_0000, g, 24);
        assert(g * pow2(23) + (f + 0x80_0000) == m);
    }
}

/// No single lies between a double and what it is narrowed to, the sign is kept, and a double that
/// is a single is narrowed to that single.
pub proof fn law_narrowing_is_faithful(b: u64, s: u32)
    requires
        magnitude(b) < INFINITY,
        s % 0x8000_0000 < 0x7f80_0000,
    ensures
        ({
            let r = crate::float64::narrowed(b);
            &&& (r >= 0x8000_0000) == is_negative(b)
            &&& single_units(s) * pow2(925) <= units(b) ==> s % 0x8000_0000 <= r % 0x8000_0000
            &&& single_units(s) * pow2(925) >= units(b) ==> s % 0x8000_0000 >= r % 0x8000_0000
            &&& single_units(s) * pow2(925) == units(b) && (s >= 0x8000_0000) == is_negative(b)
                ==> r == s
        }),
{
    lemma_pow2_pos(925);
    lemma_single_exact(s);
    let c = pow2(925);
    assert(1 * c == c);
    crate::rounding::lemma_encode_scale(single_units(s), 1, c, 24);
    if single_units(s) * c <= units(b) {
        crate::rounding::lemma_encode_monotone(single_units(s) * c, units(b), c, 24);
    }
    if single_units(s) * c >= units(b) {
        crate::rounding::lemma_encode_monotone(units(b), single_units(s) * c, c, 24);
    }
}

/// Rounding to a whole number gives the nearest one, the greater of two that are equally near;
/// cutting gives the greatest one that is not greater. Doubles that are not positive give zero.
pub proof fn law_whole_part(b: u64)
    requires
        magnitude(b) < INFINITY,
    ensures
        is_negative(b) ==> rounded_to_u64(b) == 0 && truncated_to_u64(b) == 0,
        !is_negative(b) ==> {
            let r = rounded_to_u64(b);
            let t = truncated_to_u64(b);
            let one = pow2(1074);
            &&& (2 * r - 1) * one <= 2 * units(b)
            &&& r < u64::MAX ==> 2 * units(b) < (2 * r + 1) * one
            &&& t * one <= units(b)
            &&& t < u64::MAX ==> units(b) < (t + 1) * one
        },
{
    lemma_pow2_pos(1074);
    lemma_pow2_adds(1, 1074);
    assert(pow2(1) == 2) by {
        vstd::arithmetic::power2::lemma2_to64();
    }
    let (u, o) = (units(b) as int, pow2(1074) as int);
    let p = (2 * u + o) / (2 * o);
    let q = u / o;
    vstd::arithmetic::div_mod::lemma_fundamental_div_mod(2 * u + o, 2 * o);
    vstd::arithmetic::div_mod::lemma_mod_bound(2 * u + o, 2 * o);
    vstd::arithmetic::div_mod::lemma_fundamental_div_mod(u, o);
    vstd::arithmetic::div_mod::lemma_mod_bound(u, o);
    let (r, t) = (rounded_to_u64(b) as int, truncated_to_u64(b) as int);
    assert((2 * o) * p == (2 * p) * o && o * q == q * o) by (nonlinear_arith);
    assert((2 * p - 1) * o == (2 * p) * o - o && (2 * p + 1) * o == (2 * p) * o + o) by (nonlinear_arith);
    assert((q + 1) * o == q * o + o) by (nonlinear_arith);
    assert(p >= 0 && q >= 0) by (nonlinear_arith)
        requires
            2 * u + o == (2 * p) * o + (2 * u + o) % (2 * o),
            (2 * u + o) % (2 * o) < 2 * o,
            u == q * o + u % o,
            u % o < o,
            u >= 0,
            o > 0,
    ;
    if !is_negative(b) {
        assert(r <= p && t <= q);
        assert((2 * r - 1) * o <= (2 * p - 1) * o && t * o <= q * o) by (nonlinear_arith)
            requires
                r <= p,
                t <= q,
                o > 0,
        ;
    }
}

/// A thousand as a double.
pub proof fn law_thousand()
    ensures
        crate::receipt::THOUSAND == of_whole(1000),
{
    law_whole_is_exact(1000);
    lemma_units_of(crate::receipt::THOUSAND, 0x1f_4000_0000_0000, 1032);
    lemma_pow2_adds(43, 1031);
    assert(pow2(43) == 0x800_0000_0000) by {
        vstd::arithmetic::power2::lemma2_to64_rest();
    }
    let (x, y) = (pow2(43) as int, pow2(1031) as int);
    assert((1000 * x) * y == 1000 * (x * y)) by (nonlinear_arith);
    lemma_units_exact(crate::receipt::THOUSAND);
    lemma_units_exact(of_whole(1000));
}

} // verus!
