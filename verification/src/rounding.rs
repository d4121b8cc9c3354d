//! Rounding of exact fractions to binary floating-point formats.
//!
//! A format with `p` significant binary digits counts in units, a unit being its smallest
//! positive number. A fraction is rounded to the nearest number of the format, ties to the one
//! with an even last bit.
use vstd::arithmetic::div_mod::{
    lemma_fundamental_div_mod, lemma_fundamental_div_mod_converse, lemma_mod_bound,
};
use vstd::arithmetic::power2::{
    lemma_pow2_adds, lemma_pow2_pos, lemma_pow2_strictly_increases, lemma_pow2_unfold, pow2,
};
use vstd::prelude::*;

verus! {

/// The number of binary digits of `n`; none for zero.
pub open spec fn bit_len(n: nat) -> nat
    decreases n,
{
    if n == 0 {
        0
    } else {
        1 + bit_len(n / 2)
    }
}

/// The whole number nearest to `num / den`; the even one of two that are equally near.
pub open spec fn nearest_even(num: nat, den: nat) -> nat {
    let q = num / den;
    let r = num % den;
    if 2 * r < den || (2 * r == den && q % 2 == 0) {
        q
    } else {
        q + 1
    }
}

/// `num / den` units as a magnitude with `p` significant binary digits: the bits below the sign.
pub open spec fn encode(num: nat, den: nat, p: nat) -> nat {
    let k = bit_len(num / den);
    let g: nat = if k > p {
        (k - p) as nat
    } else {
        0
    };
    g * pow2((p - 1) as nat) + nearest_even(num, den * pow2(g))
}

/// The lesser of two numbers.
pub open spec fn at_most(x: nat, bound: nat) -> nat {
    if x <= bound {
        x
    } else {
        bound
    }
}

/// The numerator of `m` times two to the power `s`.
pub open spec fn dyadic_num(m: nat, s: int) -> nat {
    if s >= 0 {
        m * pow2(s as nat)
    } else {
        m
    }
}

/// The denominator of a number times two to the power `s`.
pub open spec fn dyadic_den(s: int) -> nat {
    if s >= 0 {
        1
    } else {
        pow2((-s) as nat)
    }
}

/// A positive number lies between the powers of two that its length gives.
pub proof fn lemma_bit_len_bounds(n: nat)
    requires
        n > 0,
    ensures
        bit_len(n) > 0,
        pow2((bit_len(n) - 1) as nat) <= n < pow2(bit_len(n)),
    decreases n,
{
    if n == 1 {
        assert(bit_len(1) == 1) by {
            reveal_with_fuel(bit_len, 3);
        }
        lemma_pow2_unfold(1);
        vstd::arithmetic::power2::lemma_pow2(0);
        assert(pow2(0) == 1) by {
            vstd::arithmetic::power2::lemma2_to64();
        }
    } else {
        lemma_bit_len_bounds(n / 2);
        let k = bit_len(n / 2);
        lemma_pow2_unfold(k);
        lemma_pow2_unfold(k + 1);
    }
}

/// The powers of two around a number give its length.
pub proof fn lemma_bit_len_unique(n: nat, k: nat)
    requires
        k > 0,
        pow2((k - 1) as nat) <= n < pow2(k),
    ensures
        bit_len(n) == k,
{
    lemma_pow2_pos((k - 1) as nat);
    lemma_bit_len_bounds(n);
    let j = bit_len(n);
    if j < k {
        if j < k - 1 {
            lemma_pow2_strictly_increases(j, (k - 1) as nat);
        }
    } else if j > k {
        if k < j - 1 {
            lemma_pow2_strictly_increases(k, (j - 1) as nat);
        }
    }
}

pub proof fn lemma_pow2_le(a: nat, b: nat)
    requires
        a <= b,
    ensures
        pow2(a) <= pow2(b),
        0 < pow2(a),
{
    lemma_pow2_pos(a);
    if a < b {
        lemma_pow2_strictly_increases(a, b);
    }
}

/// Multiplying by a power of two lengthens a number by the exponent.
pub proof fn lemma_bit_len_mul(m: nat, s: nat)
    requires
        m > 0,
    ensures
        bit_len(m * pow2(s)) == bit_len(m) + s,
{
    let k = bit_len(m);
    lemma_bit_len_bounds(m);
    lemma_pow2_pos(s);
    lemma_pow2_adds((k - 1) as nat, s);
    lemma_pow2_adds(k, s);
    let a = pow2((k - 1) as nat) as int;
    let b = pow2(k) as int;
    let c = pow2(s) as int;
    let n = m as int;
    assert(a * c <= n * c) by (nonlinear_arith)
        requires
            a <= n,
            c > 0,
    ;
    assert(n * c < b * c) by (nonlinear_arith)
        requires
            n < b,
            c > 0,
    ;
    assert((k - 1) as nat + s == (k + s - 1) as nat);
    lemma_bit_len_unique(m * pow2(s), k + s);
}

/// Dividing by a power of two shortens a number by the exponent, down to nothing.
pub proof fn lemma_bit_len_div(m: nat, d: nat)
    ensures
        bit_len(m / pow2(d)) == if bit_len(m) > d {
            (bit_len(m) - d) as nat
        } else {
            0
        },
{
    lemma_pow2_pos(d);
    let c = pow2(d) as int;
    let n = m as int;
    if m == 0 {
        assert(0int / c == 0) by (nonlinear_arith)
            requires
                c > 0,
        ;
    } else {
        let k = bit_len(m);
        lemma_bit_len_bounds(m);
        if k <= d {
            lemma_pow2_le(k, d);
            assert(n / c == 0) by (nonlinear_arith)
                requires
                    0 <= n < c,
            ;
        } else {
            lemma_pow2_adds((k - 1 - d) as nat, d);
            lemma_pow2_adds((k - d) as nat, d);
            let a = pow2((k - 1 - d) as nat) as int;
            let b = pow2((k - d) as nat) as int;
            assert(a <= n / c < b) by (nonlinear_arith)
                requires
                    a * c <= n < b * c,
                    c > 0,
            ;
            lemma_bit_len_unique(m / pow2(d), (k - d) as nat);
        }
    }
}

/// Rounding does not change when numerator and denominator are scaled alike.
pub proof fn lemma_nearest_scale(num: nat, den: nat, c: nat)
    requires
        den > 0,
        c > 0,
    ensures
        nearest_even(num * c, den * c) == nearest_even(num, den),
{
    let q = num as int / den as int;
    let r = num as int % den as int;
    lemma_fundamental_div_mod(num as int, den as int);
    lemma_mod_bound(num as int, den as int);
    let n = num as int;
    let d = den as int;
    let x = c as int;
    assert(n * x == q * (d * x) + r * x) by (nonlinear_arith)
        requires
            n == d * q + r,
    ;
    assert(0 <= r * x < d * x) by (nonlinear_arith)
        requires
            0 <= r < d,
            x > 0,
    ;
    lemma_fundamental_div_mod_converse(n * x, d * x, q, r * x);
    assert((2 * r < d) == (2 * (r * x) < d * x) && (2 * r == d) == (2 * (r * x) == d * x))
        by (nonlinear_arith)
        requires
            x > 0,
    ;
}

/// A whole number is nearest to itself.
pub proof fn lemma_nearest_whole(n: nat)
    ensures
        nearest_even(n, 1) == n,
{
}

/// Two to the power `e`.
pub fn power_of_two(e: u32) -> (r: u128)
    requires
        e <= 127,
    ensures
        r == pow2(e as nat),
{
    let mut r: u128 = 1;
    let mut i: u32 = 0;
    proof {
        vstd::arithmetic::power2::lemma2_to64();
        lemma_pow2_127();
    }
    while i < e
        invariant
            i <= e <= 127,
            r == pow2(i as nat),
            pow2(127) == 0x8000_0000_0000_0000_0000_0000_0000_0000,
        decreases e - i,
    {
        proof {
            lemma_pow2_unfold((i + 1) as nat);
            lemma_pow2_le((i + 1) as nat, 127);
        }
        r = r * 2;
        i += 1;
    }
    r
}

pub proof fn lemma_pow2_127()
    ensures
        pow2(127) == 0x8000_0000_0000_0000_0000_0000_0000_0000,
        pow2(106) == 0x400_0000_0000_0000_0000_0000_0000,
{
    vstd::arithmetic::power2::lemma2_to64();
    vstd::arithmetic::power2::lemma2_to64_rest();
    lemma_pow2_adds(63, 64);
    lemma_pow2_adds(53, 53);
}

/// The number of binary digits of `m`.
pub fn length_in_bits(m: u128) -> (k: u32)
    requires
        m < 0x8000_0000_0000_0000_0000_0000_0000_0000,
    ensures
        k == bit_len(m as nat),
        k <= 127,
{
    let mut k: u32 = 0;
    let mut p: u128 = 1;
    proof {
        vstd::arithmetic::power2::lemma2_to64();
        lemma_pow2_127();
    }
    while p <= m
        invariant
            k <= 127,
            p == pow2(k as nat),
            k > 0 ==> pow2((k - 1) as nat) <= m,
            m < pow2(127),
            pow2(127) == 0x8000_0000_0000_0000_0000_0000_0000_0000,
        decreases 127 - k,
    {
        proof {
            if k >= 127 {
                lemma_pow2_le(127, k as nat);
            }
            lemma_pow2_unfold((k + 1) as nat);
            lemma_pow2_le((k + 1) as nat, 127);
        }
        p = p * 2;
        k += 1;
    }
    proof {
        if k > 0 {
            lemma_bit_len_unique(m as nat, k as nat);
        }
    }
    k
}

/// `m` divided by two to the power `d`, rounded.
fn shift_right_rounded(m: u128, d: u32) -> (t: u128)
    requires
        m < 0x8000_0000_0000_0000_0000_0000_0000_0000,
        d > 0,
    ensures
        t == nearest_even(m as nat, pow2(d as nat)),
        t <= m,
{
    let k = length_in_bits(m);
    proof {
        lemma_pow2_pos(d as nat);
    }
    if d > k {
        proof {
            lemma_pow2_unfold(d as nat);
            lemma_pow2_le(k as nat, (d - 1) as nat);
            if m > 0 {
                lemma_bit_len_bounds(m as nat);
            }
            let c = pow2(d as nat) as int;
            let n = m as int;
            assert(n / c == 0 && n % c == n) by (nonlinear_arith)
                requires
                    0 <= n,
                    2 * n < c,
            ;
        }
        0
    } else {
        let unit = power_of_two(d);
        let q: u128 = m / unit;
        let r: u128 = m % unit;
        let half: u128 = unit / 2;
        proof {
            lemma_pow2_unfold(d as nat);
            lemma_mod_bound(m as int, unit as int);
            lemma_fundamental_div_mod(m as int, unit as int);
            let n = m as int;
            let c = unit as int;
            let a = q as int;
            let b = r as int;
            assert(a <= n && (b > 0 ==> a + 1 <= n)) by (nonlinear_arith)
                requires
                    n == c * a + b,
                    c >= 2,
                    0 <= a,
                    0 <= b,
            ;
        }
        if r < half || (r == half && q % 2 == 0) {
            q
        } else {
            q + 1
        }
    }
}

/// The bits of `m` times two to the power `s` units, with `p` significant digits, no more
/// than `inf`.
pub fn encode_dyadic(m: u128, s: i32, p: u32, inf: u64) -> (bits: u64)
    requires
        m < 0x8000_0000_0000_0000_0000_0000_0000_0000,
        -4000 <= s <= 4000,
        1 <= p <= 53,
    ensures
        bits == at_most(
            encode(dyadic_num(m as nat, s as int), dyadic_den(s as int), p as nat),
            inf as nat,
        ),
{
    let ghost num = dyadic_num(m as nat, s as int);
    let ghost den = dyadic_den(s as int);
    proof {
        lemma_pow2_pos(if s >= 0 { s as nat } else { (-s) as nat });
    }
    if m == 0 {
        proof {
            let d = den as int;
            assert(num == 0) by (nonlinear_arith)
                requires
                    num == dyadic_num(0, s as int),
            ;
            assert(0int / d == 0 && 0int % d == 0) by (nonlinear_arith)
                requires
                    d > 0,
            ;
            assert(pow2(0) == 1) by {
                vstd::arithmetic::power2::lemma2_to64();
            }
            assert(den * pow2(0) == den) by (nonlinear_arith)
                requires
                    pow2(0) == 1,
            ;
            assert(0 * pow2((p - 1) as nat) == 0) by (nonlinear_arith);
            assert(bit_len(0) == 0);
            assert(nearest_even(0, den) == 0);
            assert(encode(0, den, p as nat) == 0);
        }
        return 0;
    }
    let len: i32 = length_in_bits(m) as i32;
    let k: i32 = if len + s > 0 {
        len + s
    } else {
        0
    };
    proof {
        if s >= 0 {
            lemma_bit_len_mul(m as nat, s as nat);
            assert(num / den == num);
        } else {
            lemma_bit_len_div(m as nat, (-s) as nat);
        }
        assert(bit_len(num / den) == k);
    }
    let g: i32 = if k > p as i32 {
        k - p as i32
    } else {
        0
    };
    let d: i32 = g - s;
    let ghost gg = g as nat;
    proof {
        lemma_pow2_pos(gg);
    }
    let t: u128 = if d > 0 {
        let t = shift_right_rounded(m, d as u32);
        proof {
            if s >= 0 {
                // (m * 2^s) / 2^g, with g = d + s
                lemma_pow2_adds(d as nat, s as nat);
                lemma_pow2_pos(d as nat);
                lemma_nearest_scale(m as nat, pow2(d as nat), pow2(s as nat));
                assert(den * pow2(gg) == pow2(gg)) by (nonlinear_arith)
                    requires
                        den == 1,
                ;
            } else {
                lemma_pow2_adds((-s) as nat, gg);
            }
        }
        t
    } else {
        let up: u32 = (-d) as u32;
        proof {
            // k <= p + g, so m * 2^(s - g) has at most p digits
            assert(len + up <= p);
            lemma_bit_len_bounds(m as nat);
            lemma_bit_len_mul(m as nat, up as nat);
            lemma_pow2_pos(up as nat);
            let a = m as int;
            let b = pow2(up as nat) as int;
            assert(a * b > 0) by (nonlinear_arith)
                requires
                    a > 0,
                    b > 0,
            ;
            lemma_bit_len_bounds(m as nat * pow2(up as nat));
            lemma_pow2_le((len + up) as nat, 53);
            vstd::arithmetic::power2::lemma2_to64();
            vstd::arithmetic::power2::lemma2_to64_rest();
        }
        let t = m * power_of_two(up);
        proof {
            lemma_pow2_adds(up as nat, gg);
            let a = m as nat;
            let b = pow2(up as nat);
            let c = pow2(gg);
            assert(a * (b * c) == (a * b) * c) by (nonlinear_arith);
            assert(den == 1) by {
                assert(s >= 0);
            }
            assert(num == t as nat * c);
            assert(den * c == 1 * c);
            lemma_nearest_scale(t as nat, 1, c);
            lemma_nearest_whole(t as nat);
        }
        t
    };
    assert(t == nearest_even(num, den * pow2(gg)));
    let unit = power_of_two(p - 1);
    proof {
        vstd::arithmetic::power2::lemma2_to64();
        vstd::arithmetic::power2::lemma2_to64_rest();
        lemma_pow2_le((p - 1) as nat, 52);
        let a = g as int;
        let b = unit as int;
        assert(0 <= a * b <= 10000 * 0x10_0000_0000_0000) by (nonlinear_arith)
            requires
                0 <= a <= 10000,
                0 < b <= 0x10_0000_0000_0000,
        ;
    }
    let high: u128 = (g as u128) * unit;
    let bits: u128 = high + t;
    if bits <= inf as u128 {
        bits as u64
    } else {
        inf
    }
}

/// A quotient does not change when numerator and denominator are scaled alike.
pub proof fn lemma_div_scale(n: int, d: int, x: int)
    requires
        d > 0,
        x > 0,
    ensures
        (n * x) / (d * x) == n / d,
{
    lemma_fundamental_div_mod(n, d);
    lemma_mod_bound(n, d);
    let q = n / d;
    let r = n % d;
    assert(n * x == q * (d * x) + r * x) by (nonlinear_arith)
        requires
            n == d * q + r,
    ;
    assert(0 <= r * x < d * x) by (nonlinear_arith)
        requires
            0 <= r < d,
            x > 0,
    ;
    lemma_fundamental_div_mod_converse(n * x, d * x, q, r * x);
}

/// Encoding does not change when numerator and denominator are scaled alike.
pub proof fn lemma_encode_scale(num: nat, den: nat, c: nat, p: nat)
    requires
        den > 0,
        c > 0,
    ensures
        encode(num * c, den * c, p) == encode(num, den, p),
{
    let n = num as int;
    let d = den as int;
    let x = c as int;
    lemma_div_scale(n, d, x);
    let k = bit_len(num / den);
    let g: nat = if k > p {
        (k - p) as nat
    } else {
        0
    };
    lemma_pow2_pos(g);
    let e = pow2(g);
    assert(den * e > 0) by (nonlinear_arith)
        requires
            den > 0,
            e > 0,
    ;
    assert((den * c) * e == (den * e) * c) by (nonlinear_arith);
    lemma_nearest_scale(num, den * e, c);
}

/// Between two neighbouring multiples of a fine enough step, rounding depends on the lower
/// multiple alone.
proof fn lemma_encode_between(j: nat, s: int, num: nat, den: nat, p: nat)
    requires
        p >= 1,
        bit_len(j) >= p + 2,
        den > 0,
        j * (den * dyadic_num(1, s)) < num * dyadic_den(s) < (j + 1) * (den * dyadic_num(1, s)),
    ensures
        encode(num, den, p) == encode_between(j, s, p),
{
    let len = bit_len(j);
    lemma_bit_len_bounds(j);
    let k: nat = if len + s > 0 {
        (len + s) as nat
    } else {
        0
    };
    let g: nat = if k > p {
        (k - p) as nat
    } else {
        0
    };
    let d = (g - s) as nat;
    assert(g - s >= 2);
    lemma_pow2_pos(g);
    lemma_pow2_pos(d);
    let f = num as int / den as int;
    lemma_fundamental_div_mod(num as int, den as int);
    lemma_mod_bound(num as int, den as int);
    // The length of the whole part.
    if s >= 0 {
        let u = pow2(s as nat) as int;
        lemma_pow2_pos(s as nat);
        let jj = j as int;
        let n = num as int;
        let dd = den as int;
        assert(dyadic_num(1, s) == u) by (nonlinear_arith)
            requires
                dyadic_num(1, s) == 1 * u,
        ;
        assert(jj * u <= f < (jj + 1) * u) by (nonlinear_arith)
            requires
                jj * (dd * u) < n * 1 < (jj + 1) * (dd * u),
                f == n / dd,
                dd > 0,
        ;
        lemma_pow2_adds((len - 1) as nat, s as nat);
        lemma_pow2_adds(len, s as nat);
        let lo = pow2((len - 1) as nat) as int;
        let hi = pow2(len) as int;
        assert(lo * u <= f < hi * u) by (nonlinear_arith)
            requires
                jj * u <= f < (jj + 1) * u,
                lo <= jj,
                jj + 1 <= hi,
                u > 0,
        ;
        assert((len - 1) as nat + s as nat == (len + s - 1) as nat);
        lemma_bit_len_unique(f as nat, (len + s) as nat);
    } else {
        let w = (-s) as nat;
        let v = pow2(w) as int;
        lemma_pow2_pos(w);
        let jj = j as int;
        let n = num as int;
        let dd = den as int;
        assert(f == jj / v) by {
            let q = jj / v;
            lemma_fundamental_div_mod(jj, v);
            lemma_mod_bound(jj, v);
            // q * v <= j < (q + 1) * v, so q * den <= num < (q + 1) * den.
            assert((q + 1) * v == q * v + v && v * q == q * v) by (nonlinear_arith);
            assert((q + 1) * dd == q * dd + dd) by (nonlinear_arith);
            assert(q * dd <= n < (q + 1) * dd) by {
                assert(q * dd * v <= jj * dd) by (nonlinear_arith)
                    requires
                        q * v <= jj,
                        dd > 0,
                ;
                assert((jj + 1) * dd <= (q + 1) * dd * v) by (nonlinear_arith)
                    requires
                        jj + 1 <= (q + 1) * v,
                        dd > 0,
                ;
                assert(jj * (dd * 1) == jj * dd);
                assert((jj + 1) * (dd * 1) == (jj + 1) * dd);
                assert(q * dd < n + 1 && n < (q + 1) * dd) by (nonlinear_arith)
                    requires
                        q * dd * v < n * v,
                        n * v < (q + 1) * dd * v,
                        v > 0,
                ;
            }
            assert(n == q * dd + (n - q * dd));
            lemma_fundamental_div_mod_converse(n, dd, q, n - q * dd);
        }
        lemma_bit_len_div(j, w);
    }
    assert(bit_len(num / den) == k);
    // The rounded quotient.
    let q = j as int / pow2(d) as int;
    let r = j as int % pow2(d) as int;
    lemma_fundamental_div_mod(j as int, pow2(d) as int);
    lemma_mod_bound(j as int, pow2(d) as int);
    let step = den as int * pow2(g) as int;
    assert(step > 0) by (nonlinear_arith)
        requires
            den > 0,
            pow2(g) > 0,
            step == den as int * pow2(g) as int,
    ;
    let n = num as int;
    // With step = den * 2^g: j * step < num * 2^d < (j + 1) * step.
    assert(j * step < n * pow2(d) < (j + 1) * step) by {
        let jj = j as int;
        let dd = den as int;
        let gg = pow2(g) as int;
        let x = pow2(d) as int;
        if s >= 0 {
            let u = pow2(s as nat) as int;
            lemma_pow2_pos(s as nat);
            lemma_pow2_adds(d, s as nat);
            assert(gg == x * u);
            assert(dyadic_num(1, s) == u) by (nonlinear_arith)
                requires
                    dyadic_num(1, s) == 1 * u,
            ;
            assert(jj * (dd * gg) < n * x < (jj + 1) * (dd * gg)) by (nonlinear_arith)
                requires
                    jj * (dd * u) < n * 1 < (jj + 1) * (dd * u),
                    gg == x * u,
                    x > 0,
            ;
        } else {
            let w = (-s) as nat;
            let v = pow2(w) as int;
            lemma_pow2_adds(g, w);
            assert(x == gg * v);
            assert(jj * (dd * gg) < n * x < (jj + 1) * (dd * gg)) by (nonlinear_arith)
                requires
                    jj * (dd * 1) < n * v < (jj + 1) * (dd * 1),
                    x == gg * v,
                    gg > 0,
            ;
        }
    }
    let x = pow2(d) as int;
    let jj = j as int;
    lemma_pow2_unfold(d);
    let half = pow2((d - 1) as nat) as int;
    assert(x == 2 * half);
    // num = q * step + rest, and rest lies strictly on one side of half a step.
    let rest = n - q * step;
    assert(r * step < rest * x < (r + 1) * step) by (nonlinear_arith)
        requires
            jj * step < n * x < (jj + 1) * step,
            jj == x * q + r,
            rest == n - q * step,
    ;
    assert(0 <= rest < step) by (nonlinear_arith)
        requires
            r * step < rest * x < (r + 1) * step,
            0 <= r,
            r + 1 <= x,
            step > 0,
            x > 0,
    ;
    lemma_fundamental_div_mod_converse(n, step, q, rest);
    if r < half {
        assert(2 * rest < step) by (nonlinear_arith)
            requires
                rest * x < (r + 1) * step,
                r + 1 <= half,
                x == 2 * half,
                step > 0,
                half > 0,
        ;
    } else {
        assert(2 * rest > step) by (nonlinear_arith)
            requires
                r * step < rest * x,
                r >= half,
                x == 2 * half,
                step > 0,
                half > 0,
        ;
    }
}

/// The encoding of any number strictly between `j` and `j + 1` times two to the power `s`.
spec fn encode_between(j: nat, s: int, p: nat) -> nat {
    let len = bit_len(j);
    let k: nat = if len + s > 0 {
        (len + s) as nat
    } else {
        0
    };
    let g: nat = if k > p {
        (k - p) as nat
    } else {
        0
    };
    let x = pow2((g - s) as nat);
    g * pow2((p - 1) as nat) + if j % x < pow2((g - s - 1) as nat) {
        j / x
    } else {
        j / x + 1
    }
}

/// A number strictly between two neighbouring multiples of a fine enough step encodes like the
/// number halfway between them.
pub proof fn lemma_encode_sticky(j: nat, s: int, num: nat, den: nat, p: nat)
    requires
        p >= 1,
        bit_len(j) >= p + 2,
        den > 0,
        j * (den * dyadic_num(1, s)) < num * dyadic_den(s) < (j + 1) * (den * dyadic_num(1, s)),
    ensures
        encode(num, den, p) == encode(dyadic_num(2 * j + 1, s - 1), dyadic_den(s - 1), p),
{
    lemma_encode_between(j, s, num, den, p);
    let num2 = dyadic_num(2 * j + 1, s - 1);
    let den2 = dyadic_den(s - 1);
    let jj = j as int;
    if s >= 1 {
        lemma_pow2_unfold(s as nat);
        lemma_pow2_pos((s - 1) as nat);
        let h = pow2((s - 1) as nat) as int;
        assert(jj * (1 * (1 * (2 * h))) < ((2 * jj + 1) * h) * 1 < (jj + 1) * (1 * (1 * (2 * h))))
            by (nonlinear_arith)
            requires
                h > 0,
        ;
    } else if s == 0 {
        assert(pow2(0) == 1 && pow2(1) == 2) by {
            vstd::arithmetic::power2::lemma2_to64();
        }
        assert(jj * (2 * (1 * 1)) < (2 * jj + 1) * 1 < (jj + 1) * (2 * (1 * 1)))
            by (nonlinear_arith);
    } else {
        lemma_pow2_unfold((1 - s) as nat);
        lemma_pow2_pos((-s) as nat);
        let v = pow2((-s) as nat) as int;
        assert((-(s - 1)) as nat == (1 - s) as nat);
        assert(((1 - s) - 1) as nat == (-s) as nat);
        assert(jj * ((2 * v) * 1) < (2 * jj + 1) * v < (jj + 1) * ((2 * v) * 1)) by (nonlinear_arith)
            requires
                v > 0,
        ;
    }
    lemma_pow2_pos(if s >= 1 { 0 } else { (1 - s) as nat });
    lemma_encode_between(j, s, num2, den2, p);
}

/// A greater fraction has a quotient that is not smaller, and rounds to a number that is not
/// smaller.
proof fn lemma_nearest_monotone(a: nat, b: nat, den: nat)
    requires
        a <= b,
        den > 0,
    ensures
        a / den <= b / den,
        nearest_even(a, den) <= nearest_even(b, den),
        a / den <= nearest_even(a, den) <= a / den + 1,
{
    let d = den as int;
    lemma_fundamental_div_mod(a as int, d);
    lemma_fundamental_div_mod(b as int, d);
    lemma_mod_bound(a as int, d);
    lemma_mod_bound(b as int, d);
    let q1 = a as int / d;
    let q2 = b as int / d;
    let r1 = a as int % d;
    let r2 = b as int % d;
    assert(q1 <= q2) by (nonlinear_arith)
        requires
            d * q1 + r1 <= d * q2 + r2,
            0 <= r1 < d,
            0 <= r2 < d,
    ;
    if q1 == q2 {
        assert(r1 <= r2);
    }
}

/// The length of a greater number is not smaller.
proof fn lemma_bit_len_monotone(a: nat, b: nat)
    requires
        a <= b,
    ensures
        bit_len(a) <= bit_len(b),
{
    if a > 0 {
        lemma_bit_len_bounds(a);
        lemma_bit_len_bounds(b);
        if bit_len(a) > bit_len(b) {
            lemma_pow2_le(bit_len(b), (bit_len(a) - 1) as nat);
        }
    }
}

/// What is rounded lies between the powers of two that bound the significant digits.
pub proof fn lemma_nearest_bounds(num: nat, den: nat, p: nat, g: nat)
    requires
        den > 0,
        p >= 1,
        g == if bit_len(num / den) > p {
            (bit_len(num / den) - p) as nat
        } else {
            0
        },
    ensures
        nearest_even(num, den * pow2(g)) <= pow2(p),
        g > 0 ==> nearest_even(num, den * pow2(g)) >= pow2((p - 1) as nat),
{
    let k = bit_len(num / den);
    let q = (num / den) as int;
    lemma_pow2_pos(g);
    lemma_pow2_pos(p);
    let d = den as int;
    let c = pow2(g) as int;
    assert(d * c > 0) by (nonlinear_arith)
        requires
            d > 0,
            c > 0,
    ;
    lemma_nearest_monotone(num, num, den * pow2(g));
    vstd::arithmetic::div_mod::lemma_div_denominator(num as int, d, c);
    let w = (num as int / (d * c));
    assert(w == q / c);
    lemma_bit_len_div(num / den, g);
    if w > 0 {
        lemma_bit_len_bounds(w as nat);
        lemma_pow2_le(bit_len(w as nat), p);
        assert(w < pow2(p));
        if g > 0 {
            assert(bit_len(w as nat) == p);
        }
    } else if g > 0 {
        assert(bit_len(0) == 0);
    }
}

/// A greater fraction of the same denominator has an encoding that is not smaller.
pub proof fn lemma_encode_monotone(a: nat, b: nat, den: nat, p: nat)
    requires
        a <= b,
        den > 0,
        p >= 1,
    ensures
        encode(a, den, p) <= encode(b, den, p),
{
    lemma_nearest_monotone(a, b, den);
    lemma_bit_len_monotone(a / den, b / den);
    let ka = bit_len(a / den);
    let kb = bit_len(b / den);
    let ga: nat = if ka > p {
        (ka - p) as nat
    } else {
        0
    };
    let gb: nat = if kb > p {
        (kb - p) as nat
    } else {
        0
    };
    lemma_nearest_bounds(a, den, p, ga);
    lemma_nearest_bounds(b, den, p, gb);
    lemma_pow2_unfold(p);
    let h = pow2((p - 1) as nat) as int;
    let x = ga as int;
    let y = gb as int;
    if ga == gb {
        lemma_pow2_pos(ga);
        let c = pow2(ga) as int;
        let d = den as int;
        assert(d * c > 0) by (nonlinear_arith)
            requires
                d > 0,
                c > 0,
        ;
        lemma_nearest_monotone(a, b, den * pow2(ga));
    } else {
        lemma_pow2_pos((p - 1) as nat);
        assert(x * h + 2 * h <= y * h + h) by (nonlinear_arith)
            requires
                x + 1 <= y,
                h > 0,
        ;
    }
}

/// A number that has no more significant digits than the format is encoded as it is: `m` with
/// exactly `p` digits, times two to the power `g`.
pub proof fn lemma_encode_exact(m: nat, g: nat, p: nat)
    requires
        p >= 1,
        m < pow2(p),
        g > 0 ==> m >= pow2((p - 1) as nat),
    ensures
        encode(m * pow2(g), 1, p) == g * pow2((p - 1) as nat) + m,
{
    let num = m * pow2(g);
    assert(num / 1 == num);
    lemma_pow2_pos(g);
    lemma_pow2_pos((p - 1) as nat);
    if g == 0 {
        assert(pow2(0) == 1) by {
            vstd::arithmetic::power2::lemma2_to64();
        }
        assert(num == m);
        if m > 0 {
            lemma_bit_len_bounds(m);
            if bit_len(m) > p {
                lemma_pow2_le(p, (bit_len(m) - 1) as nat);
            }
        }
        lemma_nearest_whole(m);
    } else {
        lemma_bit_len_unique(m, p);
        lemma_bit_len_mul(m, g);
        assert(1 * pow2(g) == pow2(g));
        lemma_nearest_scale(m, 1, pow2(g));
        lemma_nearest_whole(m);
    }
}

} // verus!
