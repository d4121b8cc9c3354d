//! Whole numbers of 256 bits: products that no machine word holds, and their quotients.
use vstd::prelude::*;

verus! {

/// A number of 256 bits in four digits of 64 bits, the least first.
pub struct Wide {
    d0: u64,
    d1: u64,
    d2: u64,
    d3: u64,
}

/// The product of two numbers and a carry, as a digit and the carry into the next digit.
fn digit_product(a: u64, b: u64, carry: u64) -> (r: (u64, u64))
    ensures
        r.0 + 0x1_0000_0000_0000_0000 * r.1 == a * b + carry,
{
    proof {
        assert(0 <= a * b <= 0xffff_ffff_ffff_ffff * 0xffff_ffff_ffff_ffff) by (nonlinear_arith)
            requires
                0 <= a <= 0xffff_ffff_ffff_ffff,
                0 <= b <= 0xffff_ffff_ffff_ffff,
        ;
    }
    let p: u128 = a as u128 * b as u128 + carry as u128;
    let low: u128 = p % 0x1_0000_0000_0000_0000;
    let high: u128 = p / 0x1_0000_0000_0000_0000;
    (low as u64, high as u64)
}

impl Wide {
    /// The number that the digits write.
    pub closed spec fn value(self) -> nat {
        (self.d0 + 0x1_0000_0000_0000_0000 * (self.d1 + 0x1_0000_0000_0000_0000 * (self.d2
            + 0x1_0000_0000_0000_0000 * self.d3))) as nat
    }

    /// A number of one digit.
    pub fn from_digit(d: u64) -> (r: Self)
        ensures
            r.value() == d,
    {
        Wide { d0: d, d1: 0, d2: 0, d3: 0 }
    }

    /// The product with a number of one digit.
    pub fn times(&self, k: u64) -> (r: Self)
        requires
            self.value() * k
                < 0x1_0000_0000_0000_0000_0000_0000_0000_0000_0000_0000_0000_0000_0000_0000_0000_0000nat,
        ensures
            r.value() == self.value() * k,
    {
        let (d0, c0) = digit_product(self.d0, k, 0);
        let (d1, c1) = digit_product(self.d1, k, c0);
        let (d2, c2) = digit_product(self.d2, k, c1);
        let (d3, c3) = digit_product(self.d3, k, c2);
        proof {
            let (x0, x1, x2, x3) = (self.d0 as int, self.d1 as int, self.d2 as int, self.d3 as int);
            let y = k as int;
            assert((x0 + 0x1_0000_0000_0000_0000 * (x1 + 0x1_0000_0000_0000_0000 * (x2
                + 0x1_0000_0000_0000_0000 * x3))) * y == x0 * y + 0x1_0000_0000_0000_0000 * (x1 * y
                + 0x1_0000_0000_0000_0000 * (x2 * y + 0x1_0000_0000_0000_0000 * (x3 * y))))
                by (nonlinear_arith);
            assert(c3 == 0);
        }
        Wide { d0, d1, d2, d3 }
    }

    /// Whether this number is no greater than another.
    pub fn is_at_most(&self, other: &Self) -> (r: bool)
        ensures
            r == (self.value() <= other.value()),
    {
        if self.d3 != other.d3 {
            self.d3 < other.d3
        } else if self.d2 != other.d2 {
            self.d2 < other.d2
        } else if self.d1 != other.d1 {
            self.d1 < other.d1
        } else {
            self.d0 <= other.d0
        }
    }

    /// The quotient by another number, rounded down, no more than `limit`.
    pub fn quotient_up_to(&self, den: &Self, limit: u64) -> (q: u64)
        requires
            den.value() > 0,
            den.value() * limit
                < 0x1_0000_0000_0000_0000_0000_0000_0000_0000_0000_0000_0000_0000_0000_0000_0000_0000nat,
        ensures
            q == crate::rounding::at_most(self.value() / den.value(), limit as nat),
    {
        let mut low: u64 = 0;
        let mut high: u64 = limit;
        while low < high
            invariant
                low <= high <= limit,
                den.value() > 0,
                den.value() * limit
                    < 0x1_0000_0000_0000_0000_0000_0000_0000_0000_0000_0000_0000_0000_0000_0000_0000_0000nat,
                den.value() * low <= self.value(),
                high == limit || den.value() * (high + 1) > self.value(),
            decreases high - low,
        {
            let mid: u64 = high - (high - low) / 2;
            proof {
                vstd::arithmetic::mul::lemma_mul_inequality(
                    mid as int,
                    limit as int,
                    den.value() as int,
                );
                vstd::arithmetic::mul::lemma_mul_is_commutative(mid as int, den.value() as int);
                vstd::arithmetic::mul::lemma_mul_is_commutative(limit as int, den.value() as int);
            }
            if den.times(mid).is_at_most(self) {
                low = mid;
            } else {
                high = mid - 1;
            }
        }
        proof {
            lemma_quotient(self.value() as int, den.value() as int, low as int, limit as int);
        }
        low
    }
}

/// A multiple that fits while the next does not tells the quotient.
proof fn lemma_quotient(n: int, d: int, q: int, limit: int)
    requires
        n >= 0,
        d > 0,
        0 <= q <= limit,
        d * q <= n,
        q == limit || d * (q + 1) > n,
    ensures
        q == if n / d <= limit {
            n / d
        } else {
            limit
        },
{
    vstd::arithmetic::div_mod::lemma_fundamental_div_mod(n, d);
    vstd::arithmetic::div_mod::lemma_mod_bound(n, d);
    let v = n / d;
    let rem = n % d;
    assert(v >= q) by (nonlinear_arith)
        requires
            n == d * v + rem,
            0 <= rem < d,
            d * q <= n,
    ;
    if q < limit {
        assert(v <= q) by (nonlinear_arith)
            requires
                n == d * v + rem,
                0 <= rem < d,
                d * (q + 1) > n,
        ;
    }
}

} // verus!
