//! What reputations are for: histories that count what happened, and scores that follow them.
use crate::float64::{
    is_nan, is_negative, lemma_one, lemma_units_exact, lemma_units_monotone, lemma_units_of,
    lemma_whole_bounds, magnitude, of_whole, opposite, place, product, quotient, signed_units, sum,
    units, INFINITY, ONE,
};
use crate::float_laws::{
    law_order_is_that_of_values, law_product_error, law_quotient_error, law_quotient_is_faithful,
    law_sum_error, law_whole_is_exact,
};
use crate::reputation::{
    after_failure, after_success, base_score, countable, exponent, lemma_sign_of_quotient, lesser,
    mean_speed, pruned, room_for_failure, room_for_success, score, score_of, success_share,
    unproven, Records, ReputationView, DECAY_LAMBDA, DEFAULT_SCORE, FULL_SPEED, SECONDS_PER_HOUR,
    SPEED_WEIGHT, SUCCESS_WEIGHT,
};
use vstd::arithmetic::power2::{lemma_pow2_adds, lemma_pow2_pos, pow2};
use vstd::prelude::*;

verus! {

/// A success adds one to the successes of the node, its tokens and its seconds to theirs, and sets
/// the time; the failures stay. A node that was not known has no earlier counts. Other nodes keep
/// their histories.
pub proof fn law_success_counts_once(
    m: Records,
    node_id: Seq<char>,
    latency_secs: u64,
    tokens: u32,
    now: u64,
    other: Seq<char>,
)
    requires
        room_for_success(m, node_id, tokens),
    ensures
        ({
            let after = after_success(m, node_id, latency_secs, tokens, now);
            let r = after[node_id];
            &&& after.contains_key(node_id)
            &&& m.contains_key(node_id) ==> {
                &&& r.node_id == m[node_id].node_id
                &&& r.successes == m[node_id].successes + 1
                &&& r.failures == m[node_id].failures
                &&& r.total_tokens_generated == m[node_id].total_tokens_generated + tokens
                &&& r.total_latency_secs == sum(m[node_id].total_latency_secs, latency_secs)
                &&& r.last_seen == now
            }
            &&& !m.contains_key(node_id) ==> {
                &&& r.node_id == node_id
                &&& r.successes == 1
                &&& r.failures == 0
                &&& r.total_tokens_generated == tokens
                &&& r.total_latency_secs == sum(0, latency_secs)
                &&& r.last_seen == now
            }
            &&& other != node_id ==> (after.contains_key(other) <==> m.contains_key(other))
            &&& other != node_id && m.contains_key(other) ==> after[other] == m[other]
        }),
{
}

/// A failure adds one to the failures of the node and leaves everything else of its history as it
/// was. A node that was not known is first seen then. Other nodes keep their histories.
pub proof fn law_failure_counts_once(
    m: Records,
    node_id: Seq<char>,
    now: u64,
    other: Seq<char>,
)
    requires
        room_for_failure(m, node_id),
    ensures
        ({
            let after = after_failure(m, node_id, now);
            let r = after[node_id];
            &&& after.contains_key(node_id)
            &&& m.contains_key(node_id) ==> {
                &&& r.node_id == m[node_id].node_id
                &&& r.successes == m[node_id].successes
                &&& r.failures == m[node_id].failures + 1
                &&& r.total_tokens_generated == m[node_id].total_tokens_generated
                &&& r.total_latency_secs == m[node_id].total_latency_secs
                &&& r.last_seen == m[node_id].last_seen
            }
            &&& !m.contains_key(node_id) ==> {
                &&& r.node_id == node_id
                &&& r.successes == 0
                &&& r.failures == 1
                &&& r.total_tokens_generated == 0
                &&& r.total_latency_secs == 0
                &&& r.last_seen == now
            }
            &&& other != node_id ==> (after.contains_key(other) <==> m.contains_key(other))
            &&& other != node_id && m.contains_key(other) ==> after[other] == m[other]
        }),
{
}

/// Something that is recorded of a node.
pub enum Event {
    Success { node_id: Seq<char>, latency_secs: u64, tokens: u32, now: u64 },
    Failure { node_id: Seq<char>, now: u64 },
}

/// The histories after events, one by one.
pub open spec fn replayed(m: Records, events: Seq<Event>) -> Records
    decreases events.len(),
{
    if events.len() == 0 {
        m
    } else {
        let before = replayed(m, events.drop_last());
        match events.last() {
            Event::Success { node_id, latency_secs, tokens, now } => after_success(
                before,
                node_id,
                latency_secs,
                tokens,
                now,
            ),
            Event::Failure { node_id, now } => after_failure(before, node_id, now),
        }
    }
}

/// The number of successes of a node among events.
pub open spec fn successes_among(events: Seq<Event>, node: Seq<char>) -> nat
    decreases events.len(),
{
    if events.len() == 0 {
        0
    } else {
        successes_among(events.drop_last(), node) + match events.last() {
            Event::Success { node_id, .. } => if node_id == node {
                1nat
            } else {
                0
            },
            Event::Failure { .. } => 0nat,
        }
    }
}

/// The number of failures of a node among events.
pub open spec fn failures_among(events: Seq<Event>, node: Seq<char>) -> nat
    decreases events.len(),
{
    if events.len() == 0 {
        0
    } else {
        failures_among(events.drop_last(), node) + match events.last() {
            Event::Success { .. } => 0nat,
            Event::Failure { node_id, .. } => if node_id == node {
                1nat
            } else {
                0
            },
        }
    }
}

/// The tokens of the successes of a node among events.
pub open spec fn tokens_among(events: Seq<Event>, node: Seq<char>) -> nat
    decreases events.len(),
{
    if events.len() == 0 {
        0
    } else {
        tokens_among(events.drop_last(), node) + match events.last() {
            Event::Success { node_id, latency_secs, tokens, now } => if node_id == node {
                tokens as nat
            } else {
                0
            },
            Event::Failure { node_id, now } => 0nat,
        }
    }
}

/// After any events, the successes, failures and tokens of a node are those among the events, as
/// far as the counters reach. A node is known exactly where there was an event of it.
pub proof fn law_counts_are_those_of_the_events(events: Seq<Event>, node: Seq<char>)
    requires
        events.len() <= u32::MAX,
        tokens_among(events, node) <= u32::MAX,
    ensures
        ({
            let m = replayed(Map::empty(), events);
            let s = successes_among(events, node);
            let f = failures_among(events, node);
            &&& m.contains_key(node) <==> s + f > 0
            &&& m.contains_key(node) ==> {
                &&& m[node].node_id == node
                &&& m[node].successes == s
                &&& m[node].failures == f
                &&& m[node].total_tokens_generated == tokens_among(events, node)
            }
            &&& !m.contains_key(node) ==> tokens_among(events, node) == 0
            &&& s + f <= events.len()
        }),
    decreases events.len(),
{
    if events.len() > 0 {
        let earlier = events.drop_last();
        law_counts_are_those_of_the_events(earlier, node);
        let before = replayed(Map::empty(), earlier);
        match events.last() {
            Event::Success { node_id, latency_secs, tokens, now } => {
                let after = after_success(before, node_id, latency_secs, tokens, now);
                assert(replayed(Map::empty(), events) == after);
                assert(tokens_among(earlier, node) <= tokens_among(events, node));
                if node_id == node {
                    assert(after[node].successes == successes_among(earlier, node) + 1);
                    assert(after[node].total_tokens_generated == tokens_among(earlier, node)
                        + tokens);
                }
            },
            Event::Failure { node_id, now } => {
                let after = after_failure(before, node_id, now);
                assert(replayed(Map::empty(), events) == after);
                if node_id == node {
                    assert(after[node].failures == failures_among(earlier, node) + 1);
                }
            },
        }
    }
}

/// A history is kept exactly where it is no more than 604800 seconds old, and it is kept as it is.
pub proof fn law_pruning_keeps_the_recent(m: Records, now: u64, k: Seq<char>)
    ensures
        pruned(m, now).contains_key(k) <==> m.contains_key(k) && now <= m[k].last_seen + 604_800,
        pruned(m, now).contains_key(k) ==> pruned(m, now)[k] == m[k],
{
}

/// A node without a history has the default score, and so has one of which nothing was counted.
pub proof fn law_unknown_nodes_have_the_default(
    m: Records,
    node_id: Seq<char>,
    now: u64,
    decay: u64,
)
    ensures
        !m.contains_key(node_id) ==> score_of(m, node_id, decay) == DEFAULT_SCORE,
        score(unproven(node_id, now), decay) == DEFAULT_SCORE,
        m.contains_key(node_id) ==> score_of(m, node_id, decay) == score(m[node_id], decay),
{
}

/// The powers of two that errors are counted in.
proof fn lemma_steps()
    ensures
        pow2(1074) == 0x20_0000_0000_0000 * pow2(1021),
        pow2(1021) == 2 * pow2(1020),
        pow2(1074) == 2 * pow2(1073),
        pow2(1020) > 0,
{
    lemma_pow2_adds(53, 1021);
    lemma_pow2_adds(1, 1020);
    lemma_pow2_adds(1, 1073);
    lemma_pow2_pos(1020);
    assert(pow2(1) == 2 && pow2(53) == 0x20_0000_0000_0000) by {
        vstd::arithmetic::power2::lemma2_to64();
        vstd::arithmetic::power2::lemma2_to64_rest();
    }
}

/// The share of successes is their number over the number of all events, to half a step of the
/// doubles below one. A unit is two to the power -1074.
pub proof fn law_success_share_is_the_ratio(r: ReputationView)
    requires
        countable(r),
        r.successes + r.failures > 0,
    ensures
        ({
            let u = units(success_share(r));
            let n = r.successes + r.failures;
            &&& 2 * (u * n - r.successes * pow2(1074)) <= n * pow2(1021)
            &&& 2 * (r.successes * pow2(1074) - u * n) <= n * pow2(1021)
            &&& !is_negative(success_share(r))
            &&& magnitude(success_share(r)) <= ONE
            &&& u <= pow2(1074)
        }),
{
    let (s, n) = (r.successes as u64, (r.successes + r.failures) as u64);
    law_whole_is_exact(s);
    law_whole_is_exact(n);
    lemma_whole_bounds(n);
    lemma_pow2_pos(1074);
    let (a, b) = (of_whole(s), of_whole(n));
    let (x, y, o, e) = (s as int, n as int, pow2(1074) as int, pow2(1021) as int);
    assert(x * o <= y * o) by (nonlinear_arith)
        requires
            x <= y,
            o > 0,
    ;
    law_quotient_error(a, b);
    crate::float64::lemma_share(s, n);
    lemma_one();
    lemma_units_monotone(success_share(r), ONE);
    let u = units(success_share(r)) as int;
    assert(u * (y * o) == (u * y) * o && (y * o) * e == (y * e) * o) by (nonlinear_arith);
    assert(2 * (u * y - x * o) <= y * e) by (nonlinear_arith)
        requires
            2 * ((u * y) * o - (x * o) * o) <= (y * e) * o,
            o > 0,
    ;
    assert(2 * (x * o - u * y) <= y * e) by (nonlinear_arith)
        requires
            2 * ((x * o) * o - (u * y) * o) <= (y * e) * o,
            o > 0,
    ;
}

/// Fifty as a double.
proof fn lemma_full_speed()
    ensures
        FULL_SPEED == of_whole(50),
        units(FULL_SPEED) == 50 * pow2(1074),
        !is_negative(FULL_SPEED),
        0 < magnitude(FULL_SPEED) < INFINITY,
{
    law_whole_is_exact(50);
    lemma_whole_bounds(50);
    lemma_units_of(FULL_SPEED, 0x19_0000_0000_0000, 1028);
    lemma_pow2_adds(47, 1027);
    assert(pow2(47) == 0x8000_0000_0000) by {
        vstd::arithmetic::power2::lemma2_to64_rest();
    }
    let (x, y) = (pow2(47) as int, pow2(1027) as int);
    assert((50 * x) * y == 50 * (x * y)) by (nonlinear_arith);
    lemma_units_exact(FULL_SPEED);
    lemma_units_exact(of_whole(50));
}

/// The share of the full speed, of which no more than one counts.
proof fn lemma_speed_share(v: u64)
    requires
        !is_negative(v),
    ensures
        ({
            let x = lesser(quotient(v, FULL_SPEED), ONE);
            &&& !is_negative(x)
            &&& magnitude(x) <= ONE
            &&& (is_nan(v) || place(v) >= place(of_whole(50))) ==> x == ONE
            &&& !is_nan(v) && place(v) < place(of_whole(50)) ==> {
                &&& 2 * (50 * units(x) - units(v)) <= 50 * pow2(1021)
                &&& 2 * (units(v) - 50 * units(x)) <= 50 * pow2(1021)
            }
        }),
{
    lemma_full_speed();
    lemma_one();
    lemma_pow2_pos(1074);
    let x = quotient(v, FULL_SPEED);
    if magnitude(v) < INFINITY {
        let (o, e) = (pow2(1074) as int, pow2(1021) as int);
        law_quotient_is_faithful(v, FULL_SPEED, ONE);
        law_quotient_is_faithful(v, FULL_SPEED, 0);
        assert(units(0) == 0 && magnitude(0) == 0);
        law_order_is_that_of_values(v, FULL_SPEED);
        let w = units(v) as int;
        assert(o * (50 * o) == (50 * o) * o) by (nonlinear_arith);
        crate::float64::lemma_rounded_monotone(
            units(v) * pow2(1074),
            units(v) * pow2(1074),
            units(FULL_SPEED),
        );
        if place(v) >= place(FULL_SPEED) {
            assert(w * o >= (50 * o) * o) by (nonlinear_arith)
                requires
                    w >= 50 * o,
                    o > 0,
            ;
            assert(place(ONE) <= place(x));
        } else {
            assert(w * o <= (50 * o) * o) by (nonlinear_arith)
                requires
                    w <= 50 * o,
                    o > 0,
            ;
            assert(place(x) <= place(ONE));
            law_quotient_error(v, FULL_SPEED);
            let u = units(x) as int;
            assert(u * (50 * o) == (50 * u) * o && (50 * o) * e == (50 * e) * o) by (nonlinear_arith);
            assert(2 * (50 * u - w) <= 50 * e) by (nonlinear_arith)
                requires
                    2 * ((50 * u) * o - w * o) <= (50 * e) * o,
                    o > 0,
            ;
            assert(2 * (w - 50 * u) <= 50 * e) by (nonlinear_arith)
                requires
                    2 * (w * o - (50 * u) * o) <= (50 * e) * o,
                    o > 0,
            ;
        }
    }
}

/// Seven tenths of one share and three tenths of another, to a few steps.
proof fn lemma_weighted_value(share: u64, index: u64)
    requires
        !is_negative(share),
        magnitude(share) <= ONE,
        !is_negative(index),
        magnitude(index) <= ONE,
    ensures
        ({
            let b = sum(product(share, SUCCESS_WEIGHT), product(index, SPEED_WEIGHT));
            let x = 10 * signed_units(b) - 7 * units(share) - 3 * units(index);
            -(20 * pow2(1021)) <= x <= 20 * pow2(1021)
        }),
{
    lemma_one();
    lemma_steps();
    lemma_units_monotone(share, ONE);
    lemma_units_monotone(index, ONE);
    lemma_units_of(SUCCESS_WEIGHT, 0x16_6666_6666_6666, 1022);
    lemma_units_of(SPEED_WEIGHT, 0x13_3333_3333_3333, 1021);
    let (p, q) = (product(share, SUCCESS_WEIGHT), product(index, SPEED_WEIGHT));
    law_product_error(share, SUCCESS_WEIGHT);
    law_product_error(index, SPEED_WEIGHT);
    crate::float64::lemma_product_of_shares(share, SUCCESS_WEIGHT);
    crate::float64::lemma_product_of_shares(index, SPEED_WEIGHT);
    lemma_units_monotone(p, SUCCESS_WEIGHT);
    lemma_units_monotone(q, SPEED_WEIGHT);
    law_sum_error(p, q);
    let (u, i) = (units(share) as int, units(index) as int);
    let (x, y) = (units(p) as int, units(q) as int);
    let (o, e, h) = (pow2(1074) as int, pow2(1021) as int, pow2(1020) as int);
    // Both sides of each error are multiples of a power of two.
    assert(x * o == (x * 0x20_0000_0000_0000) * e && u * (0x16_6666_6666_6666 * e) == (u
        * 0x16_6666_6666_6666) * e && o * e == (0x20_0000_0000_0000 * e) * e) by (nonlinear_arith)
        requires
            o == 0x20_0000_0000_0000 * e,
    ;
    lemma_cancel(x * 0x20_0000_0000_0000, u * 0x16_6666_6666_6666, 0x20_0000_0000_0000 * e, e);
    assert(y * o == (y * 0x40_0000_0000_0000) * h && i * (0x13_3333_3333_3333 * h) == (i
        * 0x13_3333_3333_3333) * h && o * e == (0x40_0000_0000_0000 * e) * h) by (nonlinear_arith)
        requires
            o == 0x20_0000_0000_0000 * e,
            e == 2 * h,
    ;
    lemma_cancel(y * 0x40_0000_0000_0000, i * 0x13_3333_3333_3333, 0x40_0000_0000_0000 * e, h);
}

proof fn lemma_cancel(a: int, b: int, c: int, e: int)
    requires
        e > 0,
        2 * (a * e - b * e) <= c * e,
        2 * (b * e - a * e) <= c * e,
    ensures
        2 * (a - b) <= c,
        2 * (b - a) <= c,
{
    assert(2 * (a - b) <= c) by (nonlinear_arith)
        requires
            2 * (a * e - b * e) <= c * e,
            e > 0,
    ;
    assert(2 * (b - a) <= c) by (nonlinear_arith)
        requires
            2 * (b * e - a * e) <= c * e,
            e > 0,
    ;
}

/// The score before decay is 0.7 times the share of successes plus 0.3 times the share of the full
/// speed of 50 tokens per second, of which no more than one counts: to two to the power -48. A unit
/// is two to the power -1074.
pub proof fn law_base_score_weighs_success_and_speed(r: ReputationView)
    requires
        countable(r),
        r.successes + r.failures > 0,
    ensures
        ({
            let b = signed_units(base_score(r));
            let s = r.successes;
            let n = r.successes + r.failures;
            let v = mean_speed(r);
            let full = is_nan(v) || place(v) >= place(of_whole(50));
            let x = 500 * n * b - 350 * s * pow2(1074) - (if full {
                150 * n * pow2(1074)
            } else {
                3 * n * units(v)
            });
            -(n * pow2(1032)) <= x <= n * pow2(1032)
        }),
{
    let v = mean_speed(r);
    lemma_mean_speed_sign(r);
    let share = success_share(r);
    let index = lesser(quotient(v, FULL_SPEED), ONE);
    law_success_share_is_the_ratio(r);
    lemma_speed_share(v);
    lemma_weighted_value(share, index);
    lemma_one();
    lemma_pow2_adds(11, 1021);
    assert(pow2(11) == 2048) by {
        vstd::arithmetic::power2::lemma2_to64();
    }
    lemma_pow2_pos(1021);
    let b = signed_units(base_score(r));
    let (s, n) = (r.successes as int, (r.successes + r.failures) as int);
    let (o, e) = (pow2(1074) as int, pow2(1021) as int);
    let (u, i, w) = (units(share) as int, units(index) as int, units(v) as int);
    let full = is_nan(v) || place(v) >= place(of_whole(50));
    let t: int = if full {
        50 * o
    } else {
        w
    };
    assert(-(50 * e) <= 2 * (50 * i - t) <= 50 * e);
    // 500 b is within 1000 e of 350 u + 150 i, and 150 i within 75 e of 3 t.
    let d = 500 * b - 350 * u - 3 * t;
    assert(-(1100 * e) <= d <= 1100 * e);
    assert(n * d == 500 * n * b - 350 * (u * n) - 3 * n * t) by (nonlinear_arith)
        requires
            d == 500 * b - 350 * u - 3 * t,
    ;
    assert(-(1100 * (n * e)) <= n * d <= 1100 * (n * e)) by (nonlinear_arith)
        requires
            -(1100 * e) <= d <= 1100 * e,
            n >= 0,
    ;
    assert(n * (2048 * e) == 2048 * (n * e)) by (nonlinear_arith);
    assert(350 * s * o == 350 * (s * o)) by (nonlinear_arith);
    assert(3 * n * (50 * o) == 150 * n * o) by (nonlinear_arith);
    assert(n * e >= 0) by (nonlinear_arith)
        requires
            n >= 0,
            e >= 0,
    ;
}

/// A score keeps, of what sets the score before decay apart from one half, the share that the decay
/// factor says: to two to the power -52. A unit is two to the power -1074.
pub proof fn law_score_keeps_the_decayed_distance(r: ReputationView, decay: u64)
    requires
        countable(r),
        r.successes + r.failures > 0,
        !is_negative(decay),
        magnitude(decay) <= ONE,
    ensures
        ({
            let b = signed_units(base_score(r));
            let d = units(decay) as int;
            let half = pow2(1073) as int;
            let x = signed_units(score(r, decay)) * pow2(1074) - (half * pow2(1074) + (b - half)
                * d);
            -(pow2(1074) * pow2(1022)) <= x <= pow2(1074) * pow2(1022)
        }),
{
    crate::reputation::lemma_base_score(r);
    crate::reputation::lemma_half();
    lemma_one();
    lemma_steps();
    lemma_pow2_adds(1, 1021);
    assert(pow2(1) == 2) by {
        vstd::arithmetic::power2::lemma2_to64();
    }
    let base = base_score(r);
    lemma_units_monotone(base, ONE);
    lemma_units_monotone(decay, ONE);
    let apart = sum(base, opposite(DEFAULT_SCORE));
    law_sum_error(base, opposite(DEFAULT_SCORE));
    crate::reputation::lemma_distance(base);
    lemma_units_monotone(apart, DEFAULT_SCORE);
    let kept = product(apart, decay);
    law_product_error(apart, decay);
    crate::float64::lemma_product_bounds(apart, decay);
    lemma_units_monotone(kept, apart);
    law_sum_error(DEFAULT_SCORE, kept);
    let (o, e, half) = (pow2(1074) as int, pow2(1021) as int, pow2(1073) as int);
    let (b, d) = (signed_units(base), units(decay) as int);
    let (a, k) = (signed_units(apart), signed_units(kept));
    let z = signed_units(score(r, decay));
    assert(signed_units(decay) == d);
    let c = a - (b - half);
    assert(-e <= 2 * c <= e);
    assert(-(e * o) <= 2 * (c * d) <= e * o) by (nonlinear_arith)
        requires
            -e <= 2 * c <= e,
            0 <= d <= o,
            e >= 0,
    ;
    assert(c * d == a * d - (b - half) * d) by (nonlinear_arith)
        requires
            c == a - (b - half),
    ;
    let f = z - (half + k);
    assert(-e <= 2 * f <= e);
    assert(-(e * o) <= 2 * (f * o) <= e * o) by (nonlinear_arith)
        requires
            -e <= 2 * f <= e,
            o >= 0,
    ;
    assert(f * o == z * o - half * o - k * o) by (nonlinear_arith)
        requires
            f == z - (half + k),
    ;
    assert(o * e == e * o) by (nonlinear_arith);
    assert(o * (2 * e) == 2 * (o * e)) by (nonlinear_arith);
}

proof fn lemma_mean_speed_sign(r: ReputationView)
    ensures
        !is_negative(mean_speed(r)),
{
    lemma_whole_bounds(r.total_tokens_generated as u64);
    let l = r.total_latency_secs;
    if !is_nan(l) && place(l) > 0 {
        lemma_sign_of_quotient(of_whole(r.total_tokens_generated as u64), l);
    }
}

/// The speed of a node is its tokens over its seconds: no double lies between the two. Without
/// tokens or without time it is nothing.
pub proof fn law_mean_speed_is_tokens_per_second(r: ReputationView, c: u64)
    requires
        magnitude(c) < INFINITY,
    ensures
        ({
            let t = r.total_tokens_generated;
            let l = r.total_latency_secs;
            let v = mean_speed(r);
            &&& !is_negative(v)
            &&& t == 0 || (!is_nan(l) && place(l) <= 0) ==> v == 0
            &&& t > 0 && 0 < place(l) < INFINITY ==> {
                &&& signed_units(c) * units(l) <= t * pow2(1074) * pow2(1074) ==> place(c)
                    <= place(v)
                &&& signed_units(c) * units(l) >= t * pow2(1074) * pow2(1074) ==> place(c)
                    >= place(v)
            }
        }),
{
    lemma_mean_speed_sign(r);
    let t = r.total_tokens_generated as u64;
    let l = r.total_latency_secs;
    law_whole_is_exact(t);
    if t > 0 && 0 < place(l) < INFINITY {
        law_quotient_is_faithful(of_whole(t), l, c);
    }
}

/// The constants of the decay: 3600 seconds are an hour, and the decay is a hundredth per hour, to
/// two to the power -58.
proof fn lemma_decay_constants()
    ensures
        SECONDS_PER_HOUR == of_whole(3600),
        !is_negative(DECAY_LAMBDA),
        0 < magnitude(DECAY_LAMBDA) < INFINITY,
        magnitude(opposite(DECAY_LAMBDA)) == magnitude(DECAY_LAMBDA),
        is_negative(opposite(DECAY_LAMBDA)),
        units(DECAY_LAMBDA) == 0x14_7ae1_47ae_147b * pow2(1015),
{
    law_whole_is_exact(3600);
    lemma_whole_bounds(3600);
    lemma_units_of(SECONDS_PER_HOUR, 0x1c_2000_0000_0000, 1034);
    lemma_pow2_adds(41, 1033);
    assert(pow2(41) == 0x200_0000_0000) by {
        vstd::arithmetic::power2::lemma2_to64_rest();
    }
    let (x, y) = (pow2(41) as int, pow2(1033) as int);
    assert((3600 * x) * y == 3600 * (x * y)) by (nonlinear_arith);
    lemma_units_exact(SECONDS_PER_HOUR);
    lemma_units_exact(of_whole(3600));
    lemma_units_of(DECAY_LAMBDA, 0x14_7ae1_47ae_147b, 1016);
}

/// The exponent of the decay is nothing for a node that was just seen, or seems to be seen in the
/// future, and falls as time goes on.
pub proof fn law_decay_grows_with_time(r: ReputationView, now: u64, later: u64)
    requires
        now <= later,
    ensures
        now <= r.last_seen ==> place(exponent(r, now)) == 0,
        place(exponent(r, later)) <= place(exponent(r, now)) <= 0,
{
    lemma_decay_constants();
    let young: u64 = if now >= r.last_seen {
        (now - r.last_seen) as u64
    } else {
        0
    };
    let old: u64 = if later >= r.last_seen {
        (later - r.last_seen) as u64
    } else {
        0
    };
    lemma_hours(young);
    lemma_hours(old);
    let a = quotient(of_whole(young), SECONDS_PER_HOUR);
    let b = quotient(of_whole(old), SECONDS_PER_HOUR);
    crate::float64::lemma_whole_monotone(young, old);
    law_order_is_that_of_values(of_whole(young), of_whole(old));
    lemma_whole_bounds(3600);
    crate::float_laws::law_quotient_keeps_order(of_whole(young), of_whole(old), SECONDS_PER_HOUR);
    let d = opposite(DECAY_LAMBDA);
    crate::float64::lemma_product_monotone(d, a, b);
    crate::float64::lemma_product_bounds(d, a);
    crate::float64::lemma_product_bounds(d, b);
    if young == 0 {
        crate::float64::lemma_product_zero(d, a);
    }
}

proof fn lemma_hours(age: u64)
    ensures
        ({
            let h = quotient(of_whole(age), SECONDS_PER_HOUR);
            &&& !is_negative(h)
            &&& magnitude(h) < INFINITY
            &&& age == 0 ==> magnitude(h) == 0
        }),
{
    lemma_decay_constants();
    lemma_whole_bounds(age);
    lemma_whole_bounds(3600);
    law_whole_is_exact(3600);
    law_whole_is_exact(1);
    let a = of_whole(age);
    let (w, o) = (units(a) as int, pow2(1074) as int);
    lemma_pow2_pos(1074);
    assert(w * (3600 * o) >= w * o) by (nonlinear_arith)
        requires
            w >= 0,
            o > 0,
    ;
    law_quotient_is_faithful(a, SECONDS_PER_HOUR, a);
    law_quotient_is_faithful(a, SECONDS_PER_HOUR, 0);
    assert(units(0) == 0 && magnitude(0) == 0);
    crate::float64::lemma_rounded_monotone(
        units(a) * pow2(1074),
        units(a) * pow2(1074),
        units(SECONDS_PER_HOUR),
    );
}

/// After whole hours the exponent is the decay per hour times their number, negative.
pub proof fn law_decay_is_per_hour(r: ReputationView, hours: u64)
    requires
        r.last_seen + 3600 * hours <= u64::MAX,
        3600 * hours < crate::float_laws::WHOLE_LIMIT,
    ensures
        exponent(r, (r.last_seen + 3600 * hours) as u64) == product(
            opposite(DECAY_LAMBDA),
            of_whole(hours),
        ),
{
    lemma_decay_constants();
    assert(hours * 3600 == 3600 * hours);
    crate::float_laws::law_quotient_of_wholes(hours, 3600);
}

/// There is room for a success or a failure as long as the counters of the node can hold it. A node
/// that is not known has all the room there is.
pub proof fn law_room_is_that_of_the_counters(m: Records, node_id: Seq<char>, tokens: u32)
    ensures
        !m.contains_key(node_id) ==> room_for_success(m, node_id, tokens) && room_for_failure(
            m,
            node_id,
        ),
        m.contains_key(node_id) ==> {
            let r = m[node_id];
            let events = r.successes + r.failures;
            &&& room_for_failure(m, node_id) <==> events + 1 <= u32::MAX
            &&& room_for_success(m, node_id, tokens) <==> events + 1 <= u32::MAX
                && r.total_tokens_generated + tokens <= u32::MAX
        },
{
}

/// A node that was first heard of has nothing counted, and of such a node the share of successes is
/// taken for one half.
pub proof fn law_unproven_nodes_have_no_counts(node_id: Seq<char>, now: u64)
    ensures
        ({
            let r = unproven(node_id, now);
            &&& r.node_id == node_id
            &&& r.successes == 0 && r.failures == 0
            &&& r.total_tokens_generated == 0 && r.total_latency_secs == 0
            &&& r.last_seen == now
            &&& success_share(r) == DEFAULT_SCORE
            &&& units(DEFAULT_SCORE) == pow2(1073)
        }),
{
    crate::reputation::lemma_half();
}

/// Of two nodes with the same speed, the one with no fewer successes and no more failures has no
/// lower share of successes.
pub proof fn law_share_follows_successes(a: ReputationView, b: ReputationView)
    requires
        countable(a),
        countable(b),
        a.successes + a.failures > 0,
        b.successes + b.failures > 0,
        a.successes <= b.successes,
        a.failures >= b.failures,
    ensures
        place(success_share(a)) <= place(success_share(b)),
{
    law_success_share_is_the_ratio(a);
    law_success_share_is_the_ratio(b);
    let (s, n) = (a.successes as u64, (a.successes + a.failures) as u64);
    let (t, m) = (b.successes as u64, (b.successes + b.failures) as u64);
    law_whole_is_exact(s);
    law_whole_is_exact(n);
    law_whole_is_exact(t);
    law_whole_is_exact(m);
    lemma_whole_bounds(n);
    lemma_whole_bounds(m);
    lemma_pow2_pos(1074);
    // The share of one is a double that is no more than the ratio of the other, or no less.
    let (x, y, z, w, o) = (s as int, n as int, t as int, m as int, pow2(1074) as int);
    let one = pow2(1074);
    assert(x * w <= z * y) by (nonlinear_arith)
        requires
            x <= z,
            y - x >= w - z,
            0 <= x <= y,
            0 <= z <= w,
    ;
    let d = (y * w) as nat;
    assert(y * w > 0) by (nonlinear_arith)
        requires
            y > 0,
            w > 0,
    ;
    let p = (x * w * o) as nat;
    let q = (z * y * o) as nat;
    assert(0 <= x * w * o <= z * y * o) by (nonlinear_arith)
        requires
            0 <= x * w <= z * y,
            o > 0,
    ;
    lemma_share_scaled(x, y, w, o);
    lemma_share_scaled(z, w, y, o);
    assert(w * y == y * w) by (nonlinear_arith);
    crate::float64::lemma_rounded_monotone(p, q, d);
}

/// A share of whole numbers is the fraction of the two, scaled by any number, rounded.
proof fn lemma_share_scaled(x: int, y: int, k: int, o: int)
    requires
        0 <= x <= y <= u32::MAX,
        y > 0,
        k > 0,
        o == pow2(1074),
    ensures
        magnitude(quotient(of_whole(x as u64), of_whole(y as u64))) == crate::float64::rounded(
            (x * k * o) as nat,
            (y * k) as nat,
        ),
        !is_negative(quotient(of_whole(x as u64), of_whole(y as u64))),
{
    law_whole_is_exact(x as u64);
    law_whole_is_exact(y as u64);
    lemma_whole_bounds(y as u64);
    lemma_pow2_pos(1074);
    let base = (x * o) as nat;
    let den = y as nat;
    assert(x * o >= 0 && x * k * o == (x * o) * k) by (nonlinear_arith)
        requires
            x >= 0,
            o > 0,
            k > 0,
    ;
    crate::rounding::lemma_encode_scale(base, den, k as nat, 53);
    crate::rounding::lemma_encode_scale(base, den, pow2(1074), 53);
    crate::float64::lemma_rounded_monotone(base, base, den);
}

} // verus!
