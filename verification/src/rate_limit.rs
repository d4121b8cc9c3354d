//! A limit on how often each address may call.
//!
//! Times are nanoseconds since a fixed moment.
use crate::table::Table;
use vstd::prelude::*;

verus! {

/// How many requests an address may make within the window.
pub const REQUEST_LIMIT: usize = 60;

/// The length of the window: one minute.
pub const WINDOW_NANOS: u64 = 60_000_000_000;

/// The answer to a request above the limit.
pub const LIMIT_MESSAGE: &'static str = "Rate limit exceeded. Maximum 60 requests per minute.";

/// Whether a visit at `t` is within the window that ends at `now`.
pub open spec fn is_recent(t: u64, now: u64, window: u64) -> bool {
    (if now >= t {
        now - t
    } else {
        0
    }) < window
}

/// The visits within the window that ends at `now`.
pub open spec fn recent(times: Seq<u64>, now: u64, window: u64) -> Seq<u64>
    decreases times.len(),
{
    if times.len() == 0 {
        Seq::empty()
    } else {
        let before = recent(times.drop_last(), now, window);
        if is_recent(times.last(), now, window) {
            before.push(times.last())
        } else {
            before
        }
    }
}

/// Whether a visit at `now` is admitted after the given visits.
pub open spec fn admits(times: Seq<u64>, limit: nat, window: u64, now: u64) -> bool {
    recent(times, now, window).len() < limit
}

/// The visits that are kept after a visit at `now`.
pub open spec fn visited(times: Seq<u64>, limit: nat, window: u64, now: u64) -> Seq<u64> {
    if admits(times, limit, window, now) {
        recent(times, now, window).push(now)
    } else {
        recent(times, now, window)
    }
}

/// The visits of an address.
pub open spec fn visits_of(m: Map<Seq<char>, Seq<u64>>, address: Seq<char>) -> Seq<u64> {
    if m.contains_key(address) {
        m[address]
    } else {
        Seq::empty()
    }
}

/// The recent visits of all addresses.
pub struct RateLimiter {
    visits: Table<Vec<u64>>,
}

impl View for RateLimiter {
    type V = Map<Seq<char>, Seq<u64>>;

    closed spec fn view(&self) -> Map<Seq<char>, Seq<u64>> {
        self.visits@.map_values(|v: Vec<u64>| v@)
    }
}

impl RateLimiter {
    /// Whether the table is well formed.
    pub closed spec fn wf(&self) -> bool {
        self.visits.wf()
    }

    /// No visits.
    pub fn new() -> (r: RateLimiter)
        ensures
            r.wf(),
            r@ == Map::<Seq<char>, Seq<u64>>::empty(),
    {
        let r = RateLimiter { visits: Table::new() };
        assert(r@ == Map::<Seq<char>, Seq<u64>>::empty());
        r
    }

    /// Whether an address may make a request at the time `now`; if so the visit counts.
    pub fn check_limit(&mut self, address: &str, limit: usize, window: u64, now: u64) -> (
        allowed: bool)
        requires
            old(self).wf(),
        ensures
            final(self).wf(),
            allowed == admits(visits_of(old(self)@, address@), limit as nat, window, now),
            final(self)@ == old(self)@.insert(
                address@,
                visited(visits_of(old(self)@, address@), limit as nat, window, now),
            ),
    {
        let ghost before = visits_of(self@, address@);
        let mut kept: Vec<u64> = Vec::new();
        match self.visits.get(address) {
            Some(times) => {
                let mut i: usize = 0;
                assert(times@ == before);
                while i < times.len()
                    invariant
                        i <= times@.len(),
                        times@ == before,
                        kept@ == recent(before.take(i as int), now, window),
                    decreases times@.len() - i,
                {
                    let t: u64 = times[i];
                    assert(before.take(i + 1).drop_last() == before.take(i as int));
                    if now.saturating_sub(t) < window {
                        kept.push(t);
                    }
                    i += 1;
                }
                assert(before.take(before.len() as int) == before);
            },
            None => {},
        }
        let allowed = kept.len() < limit;
        if allowed {
            kept.push(now);
        }
        self.visits.insert(address.to_owned(), kept);
        assert(self@ == old(self)@.insert(
            address@,
            visited(before, limit as nat, window, now),
        ));
        allowed
    }
}

/// The visits of one address that were admitted when it called at the given times.
pub open spec fn admitted(calls: Seq<u64>, limit: nat, window: u64) -> Seq<u64>
    decreases calls.len(),
{
    if calls.len() == 0 {
        Seq::empty()
    } else {
        let before = admitted(calls.drop_last(), limit, window);
        if admits(kept(calls.drop_last(), limit, window), limit, window, calls.last()) {
            before.push(calls.last())
        } else {
            before
        }
    }
}

/// The visits that are kept after an address called at the given times.
pub open spec fn kept(calls: Seq<u64>, limit: nat, window: u64) -> Seq<u64>
    decreases calls.len(),
{
    if calls.len() == 0 {
        Seq::empty()
    } else {
        visited(kept(calls.drop_last(), limit, window), limit, window, calls.last())
    }
}

/// Whether times do not go back.
pub open spec fn in_order(times: Seq<u64>) -> bool {
    forall|i: int, j: int| 0 <= i <= j < times.len() ==> times[i] <= times[j]
}

proof fn lemma_recent_again(times: Seq<u64>, now: u64, later: u64, window: u64)
    requires
        now <= later,
    ensures
        recent(recent(times, now, window), later, window) == recent(times, later, window),
    decreases times.len(),
{
    if times.len() > 0 {
        let t = times.drop_last();
        lemma_recent_again(t, now, later, window);
        let before = recent(t, now, window);
        if is_recent(times.last(), now, window) {
            assert(before.push(times.last()).drop_last() == before);
        }
    }
}

proof fn lemma_recent_len(times: Seq<u64>, now: u64, window: u64)
    ensures
        recent(times, now, window).len() <= times.len(),
    decreases times.len(),
{
    if times.len() > 0 {
        lemma_recent_len(times.drop_last(), now, window);
    }
}

proof fn lemma_kept_is_recent(calls: Seq<u64>, limit: nat, window: u64, now: u64)
    requires
        in_order(calls),
        calls.len() > 0 ==> calls.last() <= now,
    ensures
        recent(kept(calls, limit, window), now, window) == recent(
            admitted(calls, limit, window),
            now,
            window,
        ),
        kept(calls, limit, window).len() <= limit,
    decreases calls.len(),
{
    if calls.len() > 0 {
        let earlier = calls.drop_last();
        let last = calls.last();
        assert(in_order(earlier));
        assert(earlier.len() > 0 ==> earlier.last() == calls[calls.len() - 2]);
        lemma_kept_is_recent(earlier, limit, window, last);
        let k = kept(earlier, limit, window);
        let a = admitted(earlier, limit, window);
        lemma_recent_again(k, last, now, window);
        lemma_recent_again(a, last, now, window);
        lemma_recent_len(k, last, window);
        if admits(k, limit, window, last) {
            assert(recent(k, last, window).push(last).drop_last() == recent(k, last, window));
            assert(a.push(last).drop_last() == a);
        }
    }
}

/// Whenever an address calls, at times that do not go back, no more visits than the limit were
/// admitted within any window that ends at its last call or later.
pub proof fn law_never_above_limit(calls: Seq<u64>, limit: nat, window: u64, now: u64)
    requires
        in_order(calls),
        calls.len() > 0 ==> calls.last() <= now,
    ensures
        recent(admitted(calls, limit, window), now, window).len() <= limit,
{
    lemma_kept_is_recent(calls, limit, window, now);
    lemma_recent_len(kept(calls, limit, window), now, window);
}

/// A call is refused only where the window that ends with it is full of admitted visits.
pub proof fn law_refused_only_when_full(calls: Seq<u64>, limit: nat, window: u64, now: u64)
    requires
        in_order(calls),
        calls.len() > 0 ==> calls.last() <= now,
    ensures
        admits(kept(calls, limit, window), limit, window, now) <==> recent(
            admitted(calls, limit, window),
            now,
            window,
        ).len() < limit,
{
    lemma_kept_is_recent(calls, limit, window, now);
}

/// The visits that count are those whose window has not ended, in the order in which they came.
pub proof fn law_recent_visits_are_those_in_the_window(times: Seq<u64>, now: u64, window: u64)
    ensures
        recent(times, now, window) == times.filter(|t: u64| window > 0 && now < t + window),
    decreases times.len(),
{
    reveal(Seq::filter);
    if times.len() > 0 {
        law_recent_visits_are_those_in_the_window(times.drop_last(), now, window);
    }
}

/// A visit is admitted exactly where fewer visits than the limit are within the window, and only
/// an admitted visit counts later.
pub proof fn law_visit_counts_when_admitted(
    times: Seq<u64>,
    limit: nat,
    window: u64,
    now: u64,
)
    ensures
        ({
            let within = times.filter(|t: u64| window > 0 && now < t + window);
            &&& admits(times, limit, window, now) <==> within.len() < limit
            &&& within.len() < limit ==> visited(times, limit, window, now) == within.push(now)
            &&& within.len() >= limit ==> visited(times, limit, window, now) == within
        }),
{
    law_recent_visits_are_those_in_the_window(times, now, window);
}

/// An address may make 60 requests within 60 seconds. An address without visits may make one.
pub proof fn law_sixty_requests_per_minute(
    m: Map<Seq<char>, Seq<u64>>,
    address: Seq<char>,
    times: Seq<u64>,
    now: u64,
)
    ensures
        admits(times, REQUEST_LIMIT as nat, WINDOW_NANOS, now) <==> times.filter(
            |t: u64| now < t + 60_000_000_000,
        ).len() < 60,
        m.contains_key(address) ==> visits_of(m, address) == m[address],
        !m.contains_key(address) ==> visits_of(m, address).len() == 0,
{
    law_recent_visits_are_those_in_the_window(times, now, WINDOW_NANOS);
    assert(times.filter(|t: u64| WINDOW_NANOS > 0 && now < t + WINDOW_NANOS) == times.filter(
        |t: u64| now < t + 60_000_000_000,
    )) by {
        assert((|t: u64| WINDOW_NANOS > 0 && now < t + WINDOW_NANOS) =~= (|t: u64|
            now < t + 60_000_000_000));
    }
}

} // verus!
