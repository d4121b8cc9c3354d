//! Receipts of inference and what they pay.
use crate::float64::{divide, from_whole, multiply, product, round_to_u64, rounded_to_u64};
use crate::wide::Wide;
use vstd::prelude::*;

verus! {

/// Maximum allowed receipt age in seconds (5 minutes).
pub const MAX_RECEIPT_AGE_SECS: u64 = 300;

/// Maximum allowed future clock drift in seconds.
pub const MAX_FUTURE_DRIFT_SECS: u64 = 30;

/// The bits of the double 1000.0.
pub const THOUSAND: u64 = 0x408f_4000_0000_0000;

/// The receipt of one inference. Speeds are the bits of double-precision numbers.
#[derive(Debug)]
pub struct InferenceReceipt {
    pub receipt_id: String,
    pub client_pubkey: String,
    pub node_pubkey: String,
    pub query_hash: String,
    pub tokens_generated: usize,
    /// Generated tokens per second.
    pub tps: u64,
    /// The network median of tokens per second that the price rests on.
    pub network_median_tps: u64,
    /// Token Quality Weight: nano-iTokens per generated token at regular speed.
    pub tqw_nano: u64,
    /// Total payment in nano-iTokens.
    pub amount_nano: u64,
    /// Unix time in seconds.
    pub timestamp: u64,
    pub node_signature: Option<String>,
    pub client_signature: Option<String>,
}

/// The values that an `InferenceReceipt` holds.
pub struct ReceiptView {
    pub receipt_id: Seq<char>,
    pub client_pubkey: Seq<char>,
    pub node_pubkey: Seq<char>,
    pub query_hash: Seq<char>,
    pub tokens_generated: usize,
    pub tps: u64,
    pub network_median_tps: u64,
    pub tqw_nano: u64,
    pub amount_nano: u64,
    pub timestamp: u64,
    pub node_signature: Option<Seq<char>>,
    pub client_signature: Option<Seq<char>>,
}

/// The characters of an optional text.
pub open spec fn text_view(s: Option<String>) -> Option<Seq<char>> {
    match s {
        Some(t) => Some(t@),
        None => None,
    }
}

impl View for InferenceReceipt {
    type V = ReceiptView;

    open spec fn view(&self) -> ReceiptView {
        ReceiptView {
            receipt_id: self.receipt_id@,
            client_pubkey: self.client_pubkey@,
            node_pubkey: self.node_pubkey@,
            query_hash: self.query_hash@,
            tokens_generated: self.tokens_generated,
            tps: self.tps,
            network_median_tps: self.network_median_tps,
            tqw_nano: self.tqw_nano,
            amount_nano: self.amount_nano,
            timestamp: self.timestamp,
            node_signature: text_view(self.node_signature),
            client_signature: text_view(self.client_signature),
        }
    }
}

/// A copy of an optional text.
pub fn copy_text(s: &Option<String>) -> (r: Option<String>)
    ensures
        text_view(r) == text_view(*s),
{
    match s {
        Some(t) => Some(t.clone()),
        None => None,
    }
}

impl Clone for InferenceReceipt {
    fn clone(&self) -> (r: Self)
        ensures
            r@ == self@,
    {
        InferenceReceipt {
            receipt_id: self.receipt_id.clone(),
            client_pubkey: self.client_pubkey.clone(),
            node_pubkey: self.node_pubkey.clone(),
            query_hash: self.query_hash.clone(),
            tokens_generated: self.tokens_generated,
            tps: self.tps,
            network_median_tps: self.network_median_tps,
            tqw_nano: self.tqw_nano,
            amount_nano: self.amount_nano,
            timestamp: self.timestamp,
            node_signature: copy_text(&self.node_signature),
            client_signature: copy_text(&self.client_signature),
        }
    }
}

// ---------------------------------------------------------------------------
// The speed multiplier
// ---------------------------------------------------------------------------

/// `n` to the fourth power.
pub open spec fn fourth_power(n: nat) -> nat {
    n * n * n * n
}

/// The largest number up to `n` whose fourth power is at most `val`.
pub open spec fn fourth_root_up_to(val: nat, n: nat) -> nat
    decreases n,
{
    if n == 0 || fourth_power(n) <= val {
        n
    } else {
        fourth_root_up_to(val, (n - 1) as nat)
    }
}

/// The fourth root of `val`, rounded down, no more than 30000.
pub open spec fn fourth_root(val: nat) -> nat {
    fourth_root_up_to(val, 30000)
}

/// A number within 100 and 3000: the number itself or the nearer bound.
pub open spec fn multiplier_within_bounds(x: nat) -> nat {
    if x < 100 {
        100
    } else if x > 3000 {
        3000
    } else {
        x
    }
}

/// `n` to the third power.
pub open spec fn cube(n: nat) -> nat {
    n * n * n
}

/// The speed multiplier in thousandths for a node speed `n` and a median speed `m`, both in
/// thousandths of a token per second: the ratio to the power 3/4, within 0.1 and 3. Without a
/// median it is one token per second.
pub open spec fn multiplier_milli(n: nat, m: nat) -> nat {
    let median: nat = if m > 0 {
        m
    } else {
        1000
    };
    multiplier_within_bounds(fourth_root(cube(n) * 1_000_000_000_000 / cube(median)))
}

/// A speed in thousandths, rounded.
pub open spec fn milli(speed: u64) -> u64 {
    crate::float64::rounded_to_u64(crate::float64::product(speed, THOUSAND))
}

/// The speed multiplier of a receipt, in thousandths.
pub open spec fn receipt_multiplier(r: ReceiptView) -> nat {
    multiplier_milli(milli(r.tps) as nat, milli(r.network_median_tps) as nat)
}

/// What `tokens` tokens of weight `tqw` pay at a multiplier in thousandths, no more than 64 bits
/// hold.
pub open spec fn payment(tokens: nat, tqw: nat, multiplier: nat) -> nat {
    crate::rounding::at_most(tokens * tqw * multiplier / 1000, u64::MAX as nat)
}

/// What a receipt pays, in nano-iTokens.
pub open spec fn receipt_amount(r: ReceiptView) -> nat {
    payment(r.tokens_generated as nat, r.tqw_nano as nat, receipt_multiplier(r))
}

proof fn lemma_fourth_power_monotone(a: nat, b: nat)
    requires
        a <= b,
    ensures
        fourth_power(a) <= fourth_power(b),
{
    let x = a as int;
    let y = b as int;
    assert(x * x <= y * y) by (nonlinear_arith)
        requires
            0 <= x <= y,
    ;
    let xx = x * x;
    let yy = y * y;
    assert(xx >= 0) by (nonlinear_arith)
        requires
            xx == x * x,
    ;
    assert(xx * xx <= yy * yy) by (nonlinear_arith)
        requires
            0 <= xx <= yy,
    ;
    assert(x * x * x * x == xx * xx) by (nonlinear_arith)
        requires
            xx == x * x,
    ;
    assert(y * y * y * y == yy * yy) by (nonlinear_arith)
        requires
            yy == y * y,
    ;
}

/// The root is the one number whose fourth power is within the value while the next is not.
proof fn lemma_fourth_root_is(val: nat, n: nat, r: nat)
    requires
        r <= n,
        fourth_power(r) <= val,
        r == n || fourth_power(r + 1) > val,
    ensures
        fourth_root_up_to(val, n) == r,
    decreases n,
{
    if r < n {
        lemma_fourth_power_monotone(r + 1, n);
        lemma_fourth_root_is(val, (n - 1) as nat, r);
    }
}

proof fn lemma_fourth_root_bounds(val: nat, n: nat)
    ensures
        fourth_root_up_to(val, n) <= n,
        fourth_power(fourth_root_up_to(val, n)) <= val,
        fourth_root_up_to(val, n) == n || fourth_power(fourth_root_up_to(val, n) + 1) > val,
    decreases n,
{
    if n == 0 {
        assert(fourth_power(0) == 0) by (nonlinear_arith);
    } else if fourth_power(n) > val {
        lemma_fourth_root_bounds(val, (n - 1) as nat);
    }
}

/// The fourth root of `val`, rounded down, no more than 30000.
pub fn integer_fourth_root(val: u128) -> (r: u64)
    ensures
        r == fourth_root(val as nat),
{
    let mut low: u64 = 0;
    let mut high: u64 = 30000;
    let mut ans: u64 = 0;
    proof {
        assert(fourth_power(0) == 0) by (nonlinear_arith);
    }
    while low <= high
        invariant
            low <= 30001,
            high <= 30000,
            low <= high + 1,
            ans <= 30000,
            fourth_power(ans as nat) <= val,
            low == if ans == 0 && low == 0 {
                0
            } else {
                ans + 1
            },
            high == 30000 || fourth_power((high + 1) as nat) > val,
        decreases high + 1 - low,
    {
        let mid: u64 = low + (high - low) / 2;
        let m: u128 = mid as u128;
        proof {
            let x = mid as int;
            assert(x * x <= 900_000_000) by (nonlinear_arith)
                requires
                    0 <= x <= 30000,
            ;
            let xx = x * x;
            assert(xx * x <= 27_000_000_000_000) by (nonlinear_arith)
                requires
                    0 <= xx <= 900_000_000,
                    0 <= x <= 30000,
            ;
            let xxx = xx * x;
            assert(0 <= xx && 0 <= xxx) by (nonlinear_arith)
                requires
                    xx == x * x,
                    xxx == xx * x,
                    0 <= x,
            ;
            assert(xxx * x <= 810_000_000_000_000_000) by (nonlinear_arith)
                requires
                    0 <= xxx <= 27_000_000_000_000,
                    0 <= x <= 30000,
            ;
        }
        let mid4: u128 = m * m * m * m;
        proof {
            let x = m as int;
            assert(x == 0 ==> x * x * x * x == 0) by (nonlinear_arith);
        }
        if mid4 <= val {
            ans = mid;
            low = mid + 1;
        } else {
            assert(mid > 0);
            high = mid - 1;
        }
    }
    proof {
        lemma_fourth_root_is(val as nat, 30000, ans as nat);
    }
    ans
}

/// The cube of a number.
fn wide_cube(n: u64) -> (r: Wide)
    ensures
        r.value() == cube(n as nat),
        r.value() <= 0xffff_ffff_ffff_ffff_ffff_ffff_ffff_ffff_ffff_ffff_ffff_ffffnat,
{
    proof {
        lemma_product_bound(n as nat, n as nat, 0xffff_ffff_ffff_ffff, 0xffff_ffff_ffff_ffff);
        lemma_product_bound(
            n as nat * n as nat,
            n as nat,
            0xffff_ffff_ffff_ffff_ffff_ffff_ffff_ffff,
            0xffff_ffff_ffff_ffff,
        );
    }
    Wide::from_digit(n).times(n).times(n)
}

proof fn lemma_product_bound(a: nat, b: nat, x: nat, y: nat)
    requires
        a <= x,
        b <= y,
    ensures
        a * b <= x * y,
{
    assert(a * b <= x * y) by (nonlinear_arith)
        requires
            a <= x,
            b <= y,
    ;
}

/// Beyond the fourth power of the greatest multiplier the quotient no longer matters.
proof fn lemma_quotient_cut(v: nat)
    ensures
        multiplier_within_bounds(
            fourth_root(crate::rounding::at_most(v, 100_000_000_000_000)),
        ) == multiplier_within_bounds(fourth_root(v)),
{
    assert(fourth_power(3000) == 81_000_000_000_000) by (nonlinear_arith);
    if v > 100_000_000_000_000 {
        lemma_fourth_root_bounds(81_000_000_000_000, 30000);
        let r = fourth_root(81_000_000_000_000);
        if r < 3000 {
            lemma_fourth_power_monotone(r + 1, 3000);
        }
        lemma_root_monotone(81_000_000_000_000, 100_000_000_000_000);
        lemma_root_monotone(81_000_000_000_000, v);
    }
}

impl InferenceReceipt {
    /// Compute the payment in nano-iTokens in integer arithmetic: generated tokens times weight
    /// times speed multiplier.
    pub fn compute_amount(&self) -> (r: u64)
        ensures
            r == receipt_amount(self@),
            ({
                let n = rounded_to_u64(product(self.tps, THOUSAND)) as nat;
                let reported = rounded_to_u64(product(self.network_median_tps, THOUSAND)) as nat;
                let d: nat = if reported == 0 {
                    1000
                } else {
                    reported
                };
                exists|m: nat| #![trigger fourth_power(m)]
                    {
                        let price = self.tokens_generated * self.tqw_nano * m / 1000;
                        &&& 100 <= m <= 3000
                        &&& m > 100 ==> fourth_power(m) * (d * d * d) <= n * n * n
                            * 1_000_000_000_000
                        &&& m < 3000 ==> n * n * n * 1_000_000_000_000 < fourth_power(m + 1) * (d
                            * d * d)
                        &&& price <= u64::MAX ==> r == price
                        &&& price > u64::MAX ==> r == u64::MAX
                    }
            }),
    {
        proof {
            law_receipt_multiplier_is_three_quarter_power(self@);
            law_receipt_amount_is_product(self@);
            assert(fourth_power(receipt_multiplier(self@)) == fourth_power(
                receipt_multiplier(self@),
            ));
        }
        let multiplier_milli = self.tps_multiplier_milli();
        proof {
            lemma_product_bound(
                self.tokens_generated as nat,
                self.tqw_nano as nat,
                0xffff_ffff_ffff_ffff,
                0xffff_ffff_ffff_ffff,
            );
        }
        let base_nano: u128 = self.tokens_generated as u128 * self.tqw_nano as u128;
        let most: u128 = 0x1_0000_0000_0000_0000 * 10;
        if base_nano >= most {
            proof {
                let m = multiplier_milli as int;
                assert(base_nano * m >= 0x1_0000_0000_0000_0000 * 1000) by (nonlinear_arith)
                    requires
                        base_nano >= 0x1_0000_0000_0000_0000 * 10,
                        m >= 100,
                ;
            }
            return u64::MAX;
        }
        proof {
            lemma_product_bound(
                base_nano as nat,
                multiplier_milli as nat,
                0x1_0000_0000_0000_0000 * 10,
                3000,
            );
        }
        let amount: u128 = base_nano * multiplier_milli as u128 / 1000;
        if amount > u64::MAX as u128 {
            u64::MAX
        } else {
            amount as u64
        }
    }

    /// Speed multiplier relative to the network median, in thousandths.
    pub fn tps_multiplier_milli(&self) -> (r: u64)
        ensures
            r == receipt_multiplier(self@),
            100 <= r <= 3000,
            ({
                let n = rounded_to_u64(product(self.tps, THOUSAND)) as nat;
                let reported = rounded_to_u64(product(self.network_median_tps, THOUSAND)) as nat;
                let d: nat = if reported == 0 {
                    1000
                } else {
                    reported
                };
                &&& r > 100 ==> fourth_power(r as nat) * (d * d * d) <= n * n * n
                    * 1_000_000_000_000
                &&& r < 3000 ==> n * n * n * 1_000_000_000_000 < fourth_power((r + 1) as nat) * (d
                    * d * d)
            }),
    {
        proof {
            law_receipt_multiplier_is_three_quarter_power(self@);
        }
        let n: u64 = round_to_u64(multiply(self.tps, THOUSAND));
        let median: u64 = round_to_u64(multiply(self.network_median_tps, THOUSAND));
        let m: u64 = if median > 0 {
            median
        } else {
            1000
        };
        let cubed = wide_cube(n);
        proof {
            lemma_product_bound(
                cubed.value(),
                1_000_000_000_000,
                0xffff_ffff_ffff_ffff_ffff_ffff_ffff_ffff_ffff_ffff_ffff_ffffnat,
                1_000_000_000_000,
            );
        }
        let num = cubed.times(1_000_000_000_000);
        let den = wide_cube(m);
        proof {
            lemma_cube_positive(m as nat);
            lemma_product_bound(
                den.value(),
                100_000_000_000_000,
                0xffff_ffff_ffff_ffff_ffff_ffff_ffff_ffff_ffff_ffff_ffff_ffffnat,
                100_000_000_000_000,
            );
            lemma_quotient_cut(num.value() / den.value());
        }
        let root: u64 = integer_fourth_root(num.quotient_up_to(&den, 100_000_000_000_000) as u128);
        if root < 100 {
            100
        } else if root > 3000 {
            3000
        } else {
            root
        }
    }

    /// Speed multiplier relative to the network median, as the bits of a double.
    pub fn tps_multiplier(&self) -> (r: u64)
        ensures
            r == crate::float64::quotient(
                crate::float64::of_whole(receipt_multiplier(self@) as u64),
                THOUSAND,
            ),
            ({
                let exact = receipt_multiplier(self@) * vstd::arithmetic::power2::pow2(1074);
                let told = 1000 * crate::float64::units(r);
                let error = 1000 * vstd::arithmetic::power2::pow2(1023);
                !crate::float64::is_negative(r) && 2 * (told - exact) <= error && 2 * (exact - told)
                    <= error
            }),
    {
        proof {
            law_multiplier_within_bounds(
                milli(self.tps) as nat,
                milli(self.network_median_tps) as nat,
            );
            law_thousandths(receipt_multiplier(self@) as u64);
        }
        divide(from_whole(self.tps_multiplier_milli()), THOUSAND)
    }
}

proof fn lemma_cube_positive(m: nat)
    requires
        m > 0,
    ensures
        cube(m) > 0,
{
    assert(m * m * m > 0) by (nonlinear_arith)
        requires
            m > 0,
    ;
}

// ---------------------------------------------------------------------------
// Laws of pricing
// ---------------------------------------------------------------------------

/// The multiplier lies within 0.1 and 3.
pub proof fn law_multiplier_within_bounds(n: nat, m: nat)
    ensures
        100 <= multiplier_milli(n, m) <= 3000,
{
}

proof fn lemma_cube_monotone(a: nat, b: nat)
    requires
        a <= b,
    ensures
        cube(a) <= cube(b),
{
    assert(a * a <= b * b) by (nonlinear_arith)
        requires
            a <= b,
    ;
    let p = a * a;
    let q = b * b;
    assert(p * a <= q * b) by (nonlinear_arith)
        requires
            p <= q,
            a <= b,
    ;
}

proof fn lemma_root_monotone(v: nat, w: nat)
    requires
        v <= w,
    ensures
        fourth_root(v) <= fourth_root(w),
{
    lemma_fourth_root_bounds(v, 30000);
    lemma_fourth_root_bounds(w, 30000);
    let r = fourth_root(v);
    let t = fourth_root(w);
    if t < r {
        lemma_fourth_power_monotone(t + 1, r);
    }
}

/// A faster node has no smaller multiplier.
pub proof fn law_multiplier_grows_with_speed(slow: nat, fast: nat, median: nat)
    requires
        slow <= fast,
    ensures
        multiplier_milli(slow, median) <= multiplier_milli(fast, median),
{
    lemma_cube_monotone(slow, fast);
    let m: nat = if median > 0 {
        median
    } else {
        1000
    };
    lemma_cube_positive(m);
    let den = cube(m) as int;
    let a = (cube(slow) * 1_000_000_000_000) as int;
    let b = (cube(fast) * 1_000_000_000_000) as int;
    vstd::arithmetic::div_mod::lemma_div_is_ordered(a, b, den);
    lemma_root_monotone((a / den) as nat, (b / den) as nat);
}

/// Against a faster network a node has no greater multiplier.
pub proof fn law_multiplier_shrinks_with_median(n: nat, low: nat, high: nat)
    requires
        0 < low <= high,
    ensures
        multiplier_milli(n, high) <= multiplier_milli(n, low),
{
    lemma_cube_monotone(low, high);
    lemma_cube_positive(low);
    lemma_cube_positive(high);
    let num = (cube(n) * 1_000_000_000_000) as int;
    let d1 = cube(low) as int;
    let d2 = cube(high) as int;
    vstd::arithmetic::div_mod::lemma_div_is_ordered_by_denominator(num, d1, d2);
    vstd::arithmetic::div_mod::lemma_div_pos_is_pos(num, d2);
    lemma_root_monotone((num / d2) as nat, (num / d1) as nat);
}

/// A node exactly as fast as the network earns the plain rate.
pub proof fn law_median_speed_earns_plain_rate(n: nat)
    requires
        n > 0,
    ensures
        multiplier_milli(n, n) == 1000,
{
    lemma_cube_positive(n);
    let c = cube(n) as int;
    assert((c * 1_000_000_000_000) / c == 1_000_000_000_000) by (nonlinear_arith)
        requires
            c > 0,
    ;
    assert(fourth_power(1000) == 1_000_000_000_000) by (nonlinear_arith);
    assert(fourth_power(1001) > 1_000_000_000_000) by (nonlinear_arith);
    lemma_fourth_root_is(1_000_000_000_000, 30000, 1000);
}

/// Within its bounds the multiplier is the ratio of the speeds to the power 3/4, in thousandths and
/// rounded down.
pub proof fn law_multiplier_is_three_quarter_power(n: nat, m: nat)
    requires
        m > 0,
        100 < multiplier_milli(n, m) < 3000,
    ensures
        ({
            let r = multiplier_milli(n, m);
            let scaled = cube(n) * 1_000_000_000_000;
            fourth_power(r) * cube(m) <= scaled < fourth_power(r + 1) * cube(m)
        }),
{
    lemma_cube_positive(m);
    let num = (cube(n) * 1_000_000_000_000) as int;
    let den = cube(m) as int;
    let v = num / den;
    lemma_fourth_root_bounds(v as nat, 30000);
    let r = multiplier_milli(n, m);
    assert(r == fourth_root(v as nat));
    vstd::arithmetic::div_mod::lemma_fundamental_div_mod(num, den);
    vstd::arithmetic::div_mod::lemma_mod_bound(num, den);
    let lo = fourth_power(r) as int;
    let hi = fourth_power(r + 1) as int;
    let rem = num % den;
    assert(lo * den <= num < hi * den) by (nonlinear_arith)
        requires
            num == den * v + rem,
            0 <= rem < den,
            lo <= v,
            v + 1 <= hi,
    ;
}

/// A receipt pays tokens times weight times multiplier wherever 64 bits hold the price.
pub proof fn law_payment_is_product(tokens: nat, tqw: nat, multiplier: nat)
    requires
        tokens * tqw * multiplier / 1000 <= u64::MAX,
    ensures
        payment(tokens, tqw, multiplier) == tokens * tqw * multiplier / 1000,
{
}

/// More tokens, a greater weight or a greater multiplier never pay less.
pub proof fn law_payment_grows(t1: nat, t2: nat, w1: nat, w2: nat, m1: nat, m2: nat)
    requires
        t1 <= t2,
        w1 <= w2,
        m1 <= m2,
    ensures
        payment(t1, w1, m1) <= payment(t2, w2, m2),
{
    lemma_product_bound(t1, w1, t2, w2);
    lemma_product_bound(t1 * w1, m1, t2 * w2, m2);
}

/// At either bound too, the multiplier is the ratio of the speeds to the power 3/4: at the least
/// one the power is below the next multiplier, at the greatest one it is no less than the bound.
pub proof fn law_multiplier_meets_the_power(n: nat, m: nat)
    requires
        m > 0,
    ensures
        ({
            let r = multiplier_milli(n, m);
            let scaled = n * n * n * 1_000_000_000_000;
            let den = m * m * m;
            &&& 100 <= r <= 3000
            &&& r > 100 ==> fourth_power(r) * den <= scaled
            &&& r < 3000 ==> scaled < fourth_power(r + 1) * den
        }),
{
    lemma_cube_positive(m);
    let num = (n * n * n * 1_000_000_000_000) as int;
    let den = (m * m * m) as int;
    let v = num / den;
    lemma_fourth_root_bounds(v as nat, 30000);
    let root = fourth_root(v as nat);
    let r = multiplier_milli(n, m);
    vstd::arithmetic::div_mod::lemma_fundamental_div_mod(num, den);
    vstd::arithmetic::div_mod::lemma_mod_bound(num, den);
    let rem = num % den;
    if r > 100 {
        lemma_fourth_power_monotone(r, root);
        let lo = fourth_power(r) as int;
        assert(lo * den <= num) by (nonlinear_arith)
            requires
                num == den * v + rem,
                0 <= rem < den,
                lo <= v,
        ;
    }
    if r < 3000 {
        lemma_fourth_power_monotone(root + 1, r + 1);
        let hi = fourth_power(r + 1) as int;
        assert(num < hi * den) by (nonlinear_arith)
            requires
                num == den * v + rem,
                0 <= rem < den,
                v + 1 <= hi,
        ;
    }
}

/// The multiplier of a receipt is that of its own speeds in thousandths, rounded. Without a median
/// it is one token per second.
pub proof fn law_receipt_multiplier_is_three_quarter_power(r: ReceiptView)
    ensures
        ({
            let n = rounded_to_u64(product(r.tps, THOUSAND)) as nat;
            let reported = rounded_to_u64(product(r.network_median_tps, THOUSAND)) as nat;
            let d: nat = if reported == 0 {
                1000
            } else {
                reported
            };
            let m = receipt_multiplier(r);
            &&& 100 <= m <= 3000
            &&& m > 100 ==> fourth_power(m) * (d * d * d) <= n * n * n * 1_000_000_000_000
            &&& m < 3000 ==> n * n * n * 1_000_000_000_000 < fourth_power(m + 1) * (d * d * d)
        }),
{
    let n = rounded_to_u64(product(r.tps, THOUSAND)) as nat;
    let reported = rounded_to_u64(product(r.network_median_tps, THOUSAND)) as nat;
    let d: nat = if reported == 0 {
        1000
    } else {
        reported
    };
    law_multiplier_meets_the_power(n, d);
    assert(multiplier_milli(n, reported) == multiplier_milli(n, d));
}

/// A receipt pays its tokens times its weight times its own multiplier, in thousandths and rounded
/// down, or the most that 64 bits hold.
pub proof fn law_receipt_amount_is_product(r: ReceiptView)
    ensures
        ({
            let price = r.tokens_generated * r.tqw_nano * receipt_multiplier(r) / 1000;
            &&& price <= u64::MAX ==> receipt_amount(r) == price
            &&& price > u64::MAX ==> receipt_amount(r) == u64::MAX
        }),
{
}

/// The price of a receipt depends on its tokens, its weight and its speeds alone.
pub proof fn law_price_depends_on_work_alone(a: ReceiptView, b: ReceiptView)
    requires
        a.tokens_generated == b.tokens_generated,
        a.tqw_nano == b.tqw_nano,
        a.tps == b.tps,
        a.network_median_tps == b.network_median_tps,
    ensures
        receipt_amount(a) == receipt_amount(b),
        receipt_multiplier(a) == receipt_multiplier(b),
{
}

/// The fourth root is the greatest number up to 30000 whose fourth power is no greater.
pub proof fn law_fourth_root_is_greatest(val: nat, n: nat)
    requires
        n <= 30000,
    ensures
        n <= fourth_root(val) <==> n * n * n * n <= val,
        fourth_root(val) <= 30000,
{
    lemma_fourth_root_bounds(val, 30000);
    let r = fourth_root(val);
    assert(fourth_power(n) == n * n * n * n);
    if n <= r {
        lemma_fourth_power_monotone(n, r);
    } else {
        lemma_fourth_power_monotone(r + 1, n);
    }
}

/// Whole speeds are taken in thousandths: a receipt with whole speeds is priced by their ratio.
pub proof fn law_whole_speeds_are_taken_exactly(n: u64)
    requires
        n * 1000 < crate::float_laws::WHOLE_LIMIT,
    ensures
        milli(crate::float64::of_whole(n)) == n * 1000,
{
    crate::float_laws::law_thousand();
    crate::float_laws::law_product_of_wholes(n, 1000);
    crate::float_laws::law_whole_reads_back((n * 1000) as u64);
}

/// Of a receipt with whole speeds the multiplier in thousandths, to the fourth power, is no more
/// than the cube of the ratio of the speeds, scaled alike, and the next one is more, within the
/// bounds.
pub proof fn law_whole_speeds_are_priced_by_their_ratio(r: ReceiptView, n: u64, d: u64)
    requires
        r.tps == crate::float64::of_whole(n),
        r.network_median_tps == crate::float64::of_whole(d),
        d > 0,
        n * 1000 < crate::float_laws::WHOLE_LIMIT,
        d * 1000 < crate::float_laws::WHOLE_LIMIT,
    ensures
        ({
            let m = receipt_multiplier(r);
            &&& 100 <= m <= 3000
            &&& m > 100 ==> fourth_power(m) * (d * d * d) <= n * n * n * 1_000_000_000_000
            &&& m < 3000 ==> n * n * n * 1_000_000_000_000 < fourth_power(m + 1) * (d * d * d)
        }),
{
    law_whole_speeds_are_taken_exactly(n);
    law_whole_speeds_are_taken_exactly(d);
    law_receipt_multiplier_is_three_quarter_power(r);
    let m = receipt_multiplier(r);
    let (x, y) = (n as int, d as int);
    let (p, q) = (fourth_power(m) as int, fourth_power(m + 1) as int);
    let (c, e) = (x * x * x, y * y * y);
    assert((x * 1000) * (x * 1000) * (x * 1000) == 1_000_000_000 * c) by (nonlinear_arith)
        requires
            c == x * x * x,
    ;
    assert((y * 1000) * (y * 1000) * (y * 1000) == 1_000_000_000 * e) by (nonlinear_arith)
        requires
            e == y * y * y,
    ;
    assert(p * (1_000_000_000 * e) == 1_000_000_000 * (p * e) && q * (1_000_000_000 * e)
        == 1_000_000_000 * (q * e)) by (nonlinear_arith);
}

/// A multiplier in thousandths, over a thousand, is off by no more than two to the power -52. A
/// unit is two to the power -1074.
pub proof fn law_thousandths(m: u64)
    requires
        m <= 3000,
    ensures
        ({
            let r = crate::float64::quotient(crate::float64::of_whole(m), THOUSAND);
            let exact = m * vstd::arithmetic::power2::pow2(1074);
            let told = 1000 * crate::float64::units(r);
            let error = 1000 * vstd::arithmetic::power2::pow2(1023);
            !crate::float64::is_negative(r) && 2 * (told - exact) <= error && 2 * (exact - told)
                <= error
        }),
{
    crate::float_laws::law_thousand();
    crate::float_laws::law_whole_is_exact(m);
    crate::float_laws::law_whole_is_exact(1000);
    crate::float64::lemma_whole_bounds(1000);
    vstd::arithmetic::power2::lemma_pow2_pos(1074);
    vstd::arithmetic::power2::lemma_pow2_adds(2, 1074);
    assert(vstd::arithmetic::power2::pow2(2) == 4) by {
        vstd::arithmetic::power2::lemma2_to64();
    }
    let one = vstd::arithmetic::power2::pow2(1074);
    let e = vstd::arithmetic::power2::pow2(1023) as int;
    let (k, o) = (m as int, one as int);
    let num = (k * o) as nat;
    assert(k * o >= 0 && k * o <= 1000 * (4 * o)) by (nonlinear_arith)
        requires
            0 <= k <= 3000,
            o > 0,
    ;
    crate::float_laws::law_rounding_error(num, 1000, 1076);
    assert(num * one == (k * o) * o);
    crate::rounding::lemma_encode_scale(num, 1000, one, 53);
    let mag = crate::float64::rounded(num, 1000);
    assert(crate::float64::quotient(crate::float64::of_whole(m), THOUSAND) == mag as u64);
    let u = crate::float64::units(mag as u64) as int;
    assert(u * 1000 == 1000 * u);
}

} // verus!
