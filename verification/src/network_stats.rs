//! Generation speeds of this node and of the network.
//!
//! Times are nanoseconds since a fixed moment, speeds are tokens per second as doubles.
use crate::float64::{
    divide, from_whole, magnitude, of_whole, place, quotient, signed_units, sum, units, INFINITY,
    SIGN_BIT,
};
use crate::float_laws::{
    law_mean_lies_between, law_order_is_that_of_values, law_quotient_of_wholes, law_sum_of_wholes,
    law_whole_is_exact, lemma_two, HALF_RANGE, WHOLE_LIMIT,
};
use crate::ranking::{goes_before, is_ranking, lemma_ranking_complete, ranking};
use crate::table::{lemma_map_of_contains, lemma_map_of_row, Table};
use vstd::prelude::*;

verus! {

/// The speed that is taken where none is known, 25 tokens per second as a double.
pub const FALLBACK_TPS: u64 = 0x4039_0000_0000_0000;

/// Two as a double.
pub const TWO: u64 = 0x4000_0000_0000_0000;

/// How long a report of a peer counts: 5 minutes.
pub const STALE_NANOS: u64 = 300_000_000_000;

/// How many local speeds are kept.
pub const LOCAL_HISTORY: usize = 10;

/// The report of a peer: its speed and the time at which it came.
#[derive(Debug, Clone, Copy)]
pub struct Report {
    pub tps: u64,
    pub seen: u64,
}

/// The values of the speeds.
pub struct StatsView {
    pub peers: Map<Seq<char>, Report>,
    pub history: Seq<u64>,
    pub stale_nanos: u64,
}

/// Whether a report no longer counts at the time `now`.
pub open spec fn is_stale(r: Report, now: u64, stale_nanos: u64) -> bool {
    (if now >= r.seen {
        now - r.seen
    } else {
        0
    }) >= stale_nanos
}

/// The reports that count at the time `now`.
pub open spec fn active(peers: Map<Seq<char>, Report>, now: u64, stale_nanos: u64) -> Map<
    Seq<char>,
    Report,
> {
    Map::new(
        |k: Seq<char>| peers.contains_key(k) && !is_stale(peers[k], now, stale_nanos),
        |k: Seq<char>| peers[k],
    )
}

/// Whether `order` lists each peer once, the slowest first.
pub open spec fn by_speed(peers: Map<Seq<char>, Report>, order: Seq<Seq<char>>) -> bool {
    &&& order.no_duplicates()
    &&& forall|k: Seq<char>| #[trigger] peers.contains_key(k) <==> order.contains(k)
    &&& forall|i: int, j: int|
        0 <= i < j < order.len() ==> place(peers[#[trigger] order[i]].tps) <= place(
            peers[#[trigger] order[j]].tps,
        )
}

/// The middle of a sorted list that is not empty: its middle item, or the mean of the two middle
/// items.
pub open spec fn middle(s: Seq<u64>) -> u64 {
    if s.len() % 2 == 0 {
        quotient(sum(s[s.len() / 2 - 1], s[(s.len() / 2) as int]), TWO)
    } else {
        s[(s.len() / 2) as int]
    }
}

/// The speeds of the peers of a list, in its order.
pub open spec fn speeds(peers: Map<Seq<char>, Report>, order: Seq<Seq<char>>) -> Seq<u64> {
    order.map_values(|k: Seq<char>| peers[k].tps)
}

/// Whether `m` is the median speed of peers. Where a zero of either sign is among the speeds, both
/// count alike.
pub open spec fn is_median(peers: Map<Seq<char>, Report>, m: u64) -> bool {
    if peers.dom().is_empty() {
        m == FALLBACK_TPS
    } else {
        exists|order: Seq<Seq<char>>| #[trigger]
            by_speed(peers, order) && m == middle(speeds(peers, order))
    }
}

/// The sum of speeds from the first to the last.
pub open spec fn sum_of(s: Seq<u64>) -> u64
    decreases s.len(),
{
    if s.len() == 0 {
        SIGN_BIT
    } else {
        sum(sum_of(s.drop_last()), s.last())
    }
}

/// The mean of the local speeds.
pub open spec fn local_mean(history: Seq<u64>) -> u64 {
    if history.len() == 0 {
        FALLBACK_TPS
    } else {
        quotient(sum_of(history), of_whole(history.len() as u64))
    }
}

/// A list with one more item, cut to its last ten.
pub open spec fn remembered(history: Seq<u64>, tps: u64) -> Seq<u64> {
    let longer = history.push(tps);
    if longer.len() > LOCAL_HISTORY {
        longer.skip(1)
    } else {
        longer
    }
}

/// What is known of the speeds of this node and its peers.
pub struct NetworkStats {
    peers: Table<Report>,
    history: Vec<u64>,
    stale_nanos: u64,
}

impl View for NetworkStats {
    type V = StatsView;

    closed spec fn view(&self) -> StatsView {
        StatsView { peers: self.peers@, history: self.history@, stale_nanos: self.stale_nanos }
    }
}

impl Default for NetworkStats {
    fn default() -> (r: Self)
        ensures
            r.wf(),
            r@ == (StatsView {
                peers: Map::empty(),
                history: Seq::empty(),
                stale_nanos: STALE_NANOS,
            }),
    {
        NetworkStats::new()
    }
}

impl NetworkStats {
    /// Whether the table is well formed and no more speeds are kept than may be.
    pub closed spec fn wf(&self) -> bool {
        self.peers.wf() && self.history@.len() <= LOCAL_HISTORY
    }

    /// Nothing known; reports count for 5 minutes.
    pub fn new() -> (r: NetworkStats)
        ensures
            r.wf(),
            r@ == (StatsView {
                peers: Map::empty(),
                history: Seq::empty(),
                stale_nanos: STALE_NANOS,
            }),
    {
        NetworkStats::with_stale_duration(STALE_NANOS)
    }

    /// Nothing known; reports count for the given nanoseconds.
    pub fn with_stale_duration(stale_nanos: u64) -> (r: NetworkStats)
        ensures
            r.wf(),
            r@ == (StatsView { peers: Map::empty(), history: Seq::empty(), stale_nanos }),
    {
        NetworkStats { peers: Table::new(), history: Vec::new(), stale_nanos }
    }

    /// Keep the speed of a local run.
    pub fn record_local_inference(&mut self, tps: u64)
        requires
            old(self).wf(),
        ensures
            final(self).wf(),
            final(self)@ == (StatsView {
                history: remembered(old(self)@.history, tps),
                ..old(self)@
            }),
    {
        self.history.push(tps);
        if self.history.len() > LOCAL_HISTORY {
            let ghost longer = self.history@;
            let _ = self.history.remove(0);
            assert(self.history@ == longer.skip(1));
        }
    }

    /// The mean speed of the local runs that are kept.
    pub fn get_local_avg_tps(&self) -> (r: u64)
        requires
            self.wf(),
        ensures
            r == local_mean(self@.history),
    {
        if self.history.len() == 0 {
            return FALLBACK_TPS;
        }
        let mut total: u64 = SIGN_BIT;
        let mut i: usize = 0;
        while i < self.history.len()
            invariant
                i <= self.history@.len(),
                total == sum_of(self.history@.take(i as int)),
            decreases self.history@.len() - i,
        {
            assert(self.history@.take(i + 1).drop_last() == self.history@.take(i as int));
            total = crate::float64::add(total, self.history[i]);
            i += 1;
        }
        assert(self.history@.take(self.history@.len() as int) == self.history@);
        divide(total, from_whole(self.history.len() as u64))
    }

    /// Keep the mean speed that a peer reported at the time `now`.
    pub fn feed_heartbeat(&mut self, peer_id: &str, tps_avg: u64, now: u64)
        requires
            old(self).wf(),
        ensures
            final(self).wf(),
            final(self)@ == (StatsView {
                peers: old(self)@.peers.insert(peer_id@, Report { tps: tps_avg, seen: now }),
                ..old(self)@
            }),
    {
        self.peers.insert(peer_id.to_owned(), Report { tps: tps_avg, seen: now });
    }

    /// Drop the reports that no longer count at the time `now`.
    fn evict_stale(&mut self, now: u64)
        requires
            old(self).wf(),
        ensures
            final(self).wf(),
            final(self)@ == (StatsView {
                peers: active(old(self)@.peers, now, old(self)@.stale_nanos),
                ..old(self)@
            }),
    {
        let ghost rows = self.peers.row_seq();
        let ghost limit = self.stale_nanos;
        let mut kept: Table<Report> = Table::new();
        let mut i: usize = 0;
        assert(active(crate::table::map_of(rows.take(0)), now, limit) == Map::<
            Seq<char>,
            Report,
        >::empty());
        while i < self.peers.len()
            invariant
                self.wf(),
                *self == *old(self),
                kept.wf(),
                limit == self.stale_nanos,
                rows == self.peers.row_seq(),
                i <= rows.len(),
                kept@ == active(crate::table::map_of(rows.take(i as int)), now, limit),
            decreases rows.len() - i,
        {
            let report: Report = *self.peers.value(i);
            let ghost before = rows.take(i as int);
            let ghost after = rows.take(i + 1);
            proof {
                let key = rows[i as int].0;
                assert(after.drop_last() == before);
                assert(after.last() == rows[i as int]);
                lemma_map_of_contains(before, key);
                if crate::table::map_of(before).contains_key(key) {
                    let j = choose|j: int| 0 <= j < before.len() && (#[trigger] before[j]).0 == key;
                    assert(rows[j].0 != rows[i as int].0);
                }
            }
            if now.saturating_sub(report.seen) < self.stale_nanos {
                kept.insert(self.peers.key(i).clone(), report);
            }
            assert(kept@ == active(crate::table::map_of(after), now, limit));
            i += 1;
        }
        assert(rows.take(rows.len() as int) == rows);
        self.peers = kept;
    }

    /// The median speed of the peers whose reports count at the time `now`, and the fallback where
    /// there are none. Other reports are dropped.
    pub fn get_median_tps(&mut self, now: u64) -> (r: u64)
        requires
            old(self).wf(),
        ensures
            final(self).wf(),
            final(self)@ == (StatsView {
                peers: active(old(self)@.peers, now, old(self)@.stale_nanos),
                ..old(self)@
            }),
            is_median(final(self)@.peers, r),
            final(self)@.peers.dom().is_empty() ==> r == of_whole(25),
            ({
                let peers = final(self)@.peers;
                !peers.dom().is_empty() && (forall|k: Seq<char>| #[trigger]
                    peers.contains_key(k) ==> magnitude(peers[k].tps) < HALF_RANGE) ==> 2
                    * peers.dom().filter(|k: Seq<char>| place(peers[k].tps) <= place(r)).len()
                    >= peers.dom().len() && 2 * peers.dom().filter(
                    |k: Seq<char>| place(peers[k].tps) >= place(r),
                ).len() >= peers.dom().len()
            }),
    {
        self.evict_stale(now);
        let ghost rows = self.peers.row_seq();
        let ghost map = self.peers@;
        let n: usize = self.peers.len();
        if n == 0 {
            proof {
                assert forall|k: Seq<char>| !map.dom().contains(k) by {
                    lemma_map_of_contains(rows, k);
                }
                assert(map.dom().is_empty());
                lemma_fallback();
            }
            return FALLBACK_TPS;
        }
        let mut values: Vec<u64> = Vec::new();
        let mut i: usize = 0;
        while i < n
            invariant
                n == rows.len(),
                rows == self.peers.row_seq(),
                i <= n,
                values@.len() == i,
                forall|j: int| 0 <= j < i ==> #[trigger] values@[j] == rows[j].1.tps,
            decreases n - i,
        {
            values.push(self.peers.value(i).tps);
            i += 1;
        }
        let order = ranking(&values);
        let mid: usize = n / 2;
        let r: u64 = if n % 2 == 0 {
            divide(
                crate::float64::add(values[order[n - mid]], values[order[n - 1 - mid]]),
                TWO,
            )
        } else {
            values[order[n - 1 - mid]]
        };
        proof {
            let keys = Seq::new(n as nat, |i: int| rows[order@[n - 1 - i] as int].0);
            lemma_order_of_rows(rows, values@, order@, keys);
            assert(map.contains_key(rows[0].0)) by {
                lemma_map_of_row(rows, 0);
            }
            let s = speeds(map, keys);
            assert forall|i: int| 0 <= i < n implies #[trigger] s[i] == values@[order@[n - 1
                - i] as int] by {
                lemma_map_of_row(rows, order@[n - 1 - i] as int);
            }
            assert(r == middle(s));
            assert(by_speed(map, keys));
            assert(is_median(map, r));
            if forall|k: Seq<char>| #[trigger]
                map.contains_key(k) ==> magnitude(map[k].tps) < HALF_RANGE {
                law_median_halves_the_peers(map, r);
            }
        }
        r
    }
}

/// The ranking of the rows of a table, turned round, lists its keys by speed.
proof fn lemma_order_of_rows(
    rows: Seq<(Seq<char>, Report)>,
    values: Seq<u64>,
    order: Seq<usize>,
    keys: Seq<Seq<char>>,
)
    requires
        crate::table::keys_distinct(rows),
        values.len() == rows.len(),
        forall|j: int| 0 <= j < rows.len() ==> #[trigger] values[j] == rows[j].1.tps,
        is_ranking(values, order),
        keys == Seq::new(rows.len(), |i: int| rows[order[rows.len() - 1 - i] as int].0),
    ensures
        by_speed(crate::table::map_of(rows), keys),
{
    let map = crate::table::map_of(rows);
    let n = rows.len() as int;
    assert forall|i: int, j: int| 0 <= i < j < n implies keys[i] != keys[j] && place(
        map[#[trigger] keys[i]].tps,
    ) <= place(map[#[trigger] keys[j]].tps) by {
        let a = order[n - 1 - i] as int;
        let b = order[n - 1 - j] as int;
        assert(goes_before(values, b, a));
        lemma_map_of_row(rows, a);
        lemma_map_of_row(rows, b);
        assert(values[a] == rows[a].1.tps && values[b] == rows[b].1.tps);
        if a < b {
            assert(rows[a].0 != rows[b].0);
        } else {
            assert(rows[b].0 != rows[a].0);
        }
    }
    assert(keys.no_duplicates()) by {
        assert forall|i: int, j: int| 0 <= i < keys.len() && 0 <= j < keys.len() && i
            != j implies keys[i] != keys[j] by {
            if i < j {
                assert(keys[i] != keys[j]);
            } else {
                assert(keys[j] != keys[i]);
            }
        }
    }
    assert forall|k: Seq<char>| #[trigger] map.contains_key(k) <==> keys.contains(k) by {
        lemma_map_of_contains(rows, k);
        if map.contains_key(k) {
            let a = choose|a: int| 0 <= a < rows.len() && (#[trigger] rows[a]).0 == k;
            lemma_ranking_complete(values, order, a);
            let i = choose|i: int| 0 <= i < order.len() && #[trigger] order[i] == a;
            assert(keys[n - 1 - i] == k);
        }
        if keys.contains(k) {
            let i = choose|i: int| 0 <= i < keys.len() && keys[i] == k;
            assert(rows[order[n - 1 - i] as int].0 == k);
        }
    }
}

/// All orders of the same peers by speed show the same speeds at the same places: the median does
/// not depend on the order in which peers are looked at.
pub proof fn law_median_independent_of_order(
    peers: Map<Seq<char>, Report>,
    a: Seq<Seq<char>>,
    b: Seq<Seq<char>>,
    k: int,
)
    requires
        by_speed(peers, a),
        by_speed(peers, b),
        0 <= k < a.len(),
    ensures
        a.len() == b.len(),
        place(peers[a[k]].tps) == place(peers[b[k]].tps),
{
    a.unique_seq_to_set();
    b.unique_seq_to_set();
    assert(a.to_set() == b.to_set()) by {
        assert forall|x: Seq<char>| a.to_set().contains(x) <==> b.to_set().contains(x) by {
            assert(peers.contains_key(x) <==> a.contains(x));
            assert(peers.contains_key(x) <==> b.contains(x));
        }
    }
    lemma_not_slower(peers, a, b, k);
    lemma_not_slower(peers, b, a, k);
}

proof fn lemma_not_slower(
    peers: Map<Seq<char>, Report>,
    a: Seq<Seq<char>>,
    b: Seq<Seq<char>>,
    k: int,
)
    requires
        by_speed(peers, a),
        by_speed(peers, b),
        0 <= k < a.len(),
        a.len() == b.len(),
    ensures
        place(peers[a[k]].tps) >= place(peers[b[k]].tps),
{
    if place(peers[a[k]].tps) < place(peers[b[k]].tps) {
        let low = a.take(k + 1);
        let few = b.take(k);
        assert(low.no_duplicates());
        assert(few.no_duplicates());
        low.unique_seq_to_set();
        few.unique_seq_to_set();
        assert(low.to_set().subset_of(few.to_set())) by {
            assert forall|x: Seq<char>| low.to_set().contains(x) implies few.to_set().contains(
                x,
            ) by {
                let i = choose|i: int| 0 <= i < low.len() && low[i] == x;
                assert(a[i] == x);
                assert(a.contains(x));
                assert(peers.contains_key(x));
                assert(b.contains(x));
                let j = choose|j: int| 0 <= j < b.len() && b[j] == x;
                if i < k {
                    assert(place(peers[a[i]].tps) <= place(peers[a[k]].tps));
                }
                if j > k {
                    assert(place(peers[b[k]].tps) <= place(peers[b[j]].tps));
                }
                assert(j < k);
                assert(few[j] == x);
            }
        }
        vstd::set_lib::lemma_len_subset(low.to_set(), few.to_set());
    }
}

/// A report that came now counts, however many stale ones there are, and alone it is the median.
pub proof fn law_single_report_is_median(
    peers: Map<Seq<char>, Report>,
    peer: Seq<char>,
    tps: u64,
    now: u64,
    stale_nanos: u64,
    m: u64,
)
    requires
        stale_nanos > 0,
        forall|k: Seq<char>| #[trigger]
            peers.contains_key(k) && k != peer ==> is_stale(peers[k], now, stale_nanos),
        is_median(active(peers.insert(peer, Report { tps, seen: now }), now, stale_nanos), m),
    ensures
        m == tps,
{
    let all = active(peers.insert(peer, Report { tps, seen: now }), now, stale_nanos);
    assert(all.contains_key(peer));
    let order = choose|order: Seq<Seq<char>>| #[trigger]
        by_speed(all, order) && m == middle(speeds(all, order));
    assert(order.contains(peer));
    assert forall|i: int| 0 <= i < order.len() implies #[trigger] order[i] == peer by {
        assert(order.contains(order[i]));
        assert(all.contains_key(order[i]));
    }
    if order.len() > 1 {
        assert(order[0] == order[1]);
    }
    assert(order.len() == 1);
    assert(speeds(all, order)[0] == tps);
}

/// The median lies in the middle of the peers in the order of their speeds: it is the speed of the
/// middle one, and of an even number of peers it lies between the two middle speeds and is their
/// mean, exactly where a double holds that. Speeds are taken to be within half the range of
/// doubles.
pub proof fn law_median_lies_in_the_middle(
    peers: Map<Seq<char>, Report>,
    order: Seq<Seq<char>>,
    m: u64,
    h: u64,
)
    requires
        by_speed(peers, order),
        order.len() > 0,
        is_median(peers, m),
        forall|k: Seq<char>| #[trigger]
            peers.contains_key(k) ==> magnitude(peers[k].tps) < HALF_RANGE,
        magnitude(h) < INFINITY,
    ensures
        order.len() % 2 == 1 ==> place(m) == place(peers[order[(order.len() / 2) as int]].tps),
        order.len() % 2 == 0 ==> {
            let slower = peers[order[order.len() / 2 - 1]].tps;
            let faster = peers[order[(order.len() / 2) as int]].tps;
            &&& place(slower) <= place(m) <= place(faster)
            &&& 2 * signed_units(h) == signed_units(slower) + signed_units(faster) ==> place(m)
                == place(h)
        },
{
    let n = order.len() as int;
    assert(order.contains(order[0]));
    assert(peers.dom().contains(order[0]));
    let found = choose|o: Seq<Seq<char>>| #[trigger]
        by_speed(peers, o) && m == middle(speeds(peers, o));
    law_median_independent_of_order(peers, order, found, n / 2);
    assert(order.contains(order[n / 2]) && found.contains(found[n / 2]));
    assert(speeds(peers, found)[n / 2] == peers[found[n / 2]].tps);
    if n % 2 == 0 {
        law_median_independent_of_order(peers, order, found, n / 2 - 1);
        assert(order.contains(order[n / 2 - 1]) && found.contains(found[n / 2 - 1]));
        assert(speeds(peers, found)[n / 2 - 1] == peers[found[n / 2 - 1]].tps);
        let a = peers[found[n / 2 - 1]].tps;
        let b = peers[found[n / 2]].tps;
        let (slower, faster) = (peers[order[n / 2 - 1]].tps, peers[order[n / 2]].tps);
        assert(peers.contains_key(found[n / 2 - 1]) && peers.contains_key(found[n / 2]));
        assert(peers.contains_key(order[n / 2 - 1]) && peers.contains_key(order[n / 2]));
        law_order_is_that_of_values(a, slower);
        law_order_is_that_of_values(b, faster);
        lemma_two();
        law_mean_lies_between(a, b, h);
    }
}

/// At least half of the peers are no faster than the median, and at least half no slower.
pub proof fn law_median_halves_the_peers(peers: Map<Seq<char>, Report>, m: u64)
    requires
        is_median(peers, m),
        !peers.dom().is_empty(),
        forall|k: Seq<char>| #[trigger]
            peers.contains_key(k) ==> magnitude(peers[k].tps) < HALF_RANGE,
    ensures
        2 * peers.dom().filter(|k: Seq<char>| place(peers[k].tps) <= place(m)).len()
            >= peers.dom().len(),
        2 * peers.dom().filter(|k: Seq<char>| place(peers[k].tps) >= place(m)).len()
            >= peers.dom().len(),
        peers.dom().finite(),
{
    let order = choose|o: Seq<Seq<char>>| #[trigger]
        by_speed(peers, o) && m == middle(speeds(peers, o));
    let n = order.len() as int;
    let dom = peers.dom();
    assert(order.to_set() == dom) by {
        assert forall|k: Seq<char>| order.to_set().contains(k) <==> dom.contains(k) by {
            assert(peers.contains_key(k) <==> order.contains(k));
        }
    }
    order.unique_seq_to_set();
    let some = dom.choose();
    assert(order.contains(some));
    assert(n > 0);
    law_median_lies_in_the_middle(peers, order, m, 0);
    let slow = dom.filter(|k: Seq<char>| place(peers[k].tps) <= place(m));
    let fast = dom.filter(|k: Seq<char>| place(peers[k].tps) >= place(m));
    let half = (n + 1) / 2;
    let low = order.take(half);
    let high = order.skip(n - half);
    assert(low.no_duplicates() && high.no_duplicates());
    low.unique_seq_to_set();
    high.unique_seq_to_set();
    assert forall|k: Seq<char>| low.to_set().contains(k) implies slow.contains(k) by {
        let i = choose|i: int| 0 <= i < low.len() && low[i] == k;
        assert(order[i] == k && order.contains(k));
        assert(peers.contains_key(k));
        if i < half - 1 {
            assert(place(peers[order[i]].tps) <= place(peers[order[half - 1]].tps));
        }
        assert(half - 1 == if n % 2 == 0 { n / 2 - 1 } else { n / 2 });
    }
    assert forall|k: Seq<char>| high.to_set().contains(k) implies fast.contains(k) by {
        let i = choose|i: int| 0 <= i < high.len() && high[i] == k;
        let j = i + n - half;
        assert(order[j] == k && order.contains(k));
        assert(peers.contains_key(k));
        assert(n - half == n / 2);
        if j > n / 2 {
            assert(place(peers[order[n / 2]].tps) <= place(peers[order[j]].tps));
        }
    }
    vstd::set_lib::lemma_len_subset(low.to_set(), slow);
    vstd::set_lib::lemma_len_subset(high.to_set(), fast);
}

/// A report counts exactly where less time has passed since it came than reports count for, and it
/// counts as it came.
pub proof fn law_recent_reports_count(
    peers: Map<Seq<char>, Report>,
    now: u64,
    stale_nanos: u64,
    k: Seq<char>,
)
    ensures
        ({
            let counted = active(peers, now, stale_nanos);
            &&& counted.contains_key(k) ==> peers.contains_key(k) && counted[k] == peers[k]
            &&& peers.contains_key(k) ==> (counted.contains_key(k) <==> stale_nanos > 0 && now
                < peers[k].seen + stale_nanos)
        }),
{
}

/// The speeds that are kept after the given local runs.
pub open spec fn recorded(runs: Seq<u64>) -> Seq<u64>
    decreases runs.len(),
{
    if runs.len() == 0 {
        Seq::empty()
    } else {
        remembered(recorded(runs.drop_last()), runs.last())
    }
}

/// Of all local runs the last ten are kept, in the order in which they came.
pub proof fn law_last_ten_runs_are_kept(runs: Seq<u64>)
    ensures
        runs.len() <= 10 ==> recorded(runs) == runs,
        runs.len() > 10 ==> recorded(runs) == runs.skip(runs.len() - 10),
    decreases runs.len(),
{
    if runs.len() > 0 {
        let before = runs.drop_last();
        law_last_ten_runs_are_kept(before);
        if runs.len() <= 10 {
            assert(recorded(runs) == runs);
        } else {
            assert(recorded(runs) == runs.skip(runs.len() - 10));
        }
    }
}

/// The sum of whole numbers.
pub open spec fn total_of(wholes: Seq<u64>) -> nat
    decreases wholes.len(),
{
    if wholes.len() == 0 {
        0
    } else {
        total_of(wholes.drop_last()) + wholes.last() as nat
    }
}

/// The doubles of whole numbers.
pub open spec fn whole_speeds(wholes: Seq<u64>) -> Seq<u64> {
    wholes.map_values(|n: u64| of_whole(n))
}

proof fn lemma_sum_of_wholes(wholes: Seq<u64>)
    requires
        wholes.len() > 0,
        total_of(wholes) < WHOLE_LIMIT,
    ensures
        sum_of(whole_speeds(wholes)) == of_whole(total_of(wholes) as u64),
    decreases wholes.len(),
{
    let before = wholes.drop_last();
    let x = wholes.last();
    assert(whole_speeds(wholes).drop_last() == whole_speeds(before));
    assert(whole_speeds(wholes).last() == of_whole(x));
    if before.len() == 0 {
        assert(whole_speeds(before) == Seq::<u64>::empty());
        assert(sum_of(whole_speeds(before)) == SIGN_BIT);
        law_whole_is_exact(x);
        crate::float64::lemma_whole_bounds(x);
        assert(units(SIGN_BIT) == 0 && magnitude(SIGN_BIT) == 0);
        crate::float64::lemma_units_exact(of_whole(x));
        if x == 0 {
            assert(of_whole(0) == 0);
            assert(0 * vstd::arithmetic::power2::pow2(1074) == 0);
            assert(units(0) == 0 && magnitude(0) == 0);
        }
        crate::float64::lemma_units_exact(0);
    } else {
        lemma_sum_of_wholes(before);
        law_sum_of_wholes(total_of(before) as u64, x);
    }
}

/// The fallback is 25.
proof fn lemma_fallback()
    ensures
        FALLBACK_TPS == of_whole(25),
{
    law_whole_is_exact(25);
    let fallback: u64 = FALLBACK_TPS;
    vstd::arithmetic::power2::lemma2_to64_rest();
    crate::float64::lemma_units_of(fallback, 0x19_0000_0000_0000, 1027);
    vstd::arithmetic::power2::lemma_pow2_adds(48, 1026);
    assert(0x19_0000_0000_0000nat == 25 * vstd::arithmetic::power2::pow2(48));
    let (x, y) = (
        vstd::arithmetic::power2::pow2(48) as int,
        vstd::arithmetic::power2::pow2(1026) as int,
    );
    assert((25 * x) * y == 25 * (x * y)) by (nonlinear_arith);
    crate::float64::lemma_units_exact(fallback);
    crate::float64::lemma_units_exact(of_whole(25));
}

/// The mean of local runs at whole speeds is their sum over their number, and exact where that is
/// whole. Without runs it is 25.
pub proof fn law_local_mean_is_sum_over_number(wholes: Seq<u64>, mean: u64)
    requires
        0 < wholes.len() <= 10,
        total_of(wholes) < WHOLE_LIMIT,
    ensures
        local_mean(whole_speeds(wholes)) == quotient(
            of_whole(total_of(wholes) as u64),
            of_whole(wholes.len() as u64),
        ),
        mean * wholes.len() == total_of(wholes) ==> local_mean(whole_speeds(wholes)) == of_whole(
            mean,
        ),
        local_mean(Seq::empty()) == of_whole(25),
{
    lemma_sum_of_wholes(wholes);
    let n = wholes.len() as u64;
    if mean * wholes.len() == total_of(wholes) {
        assert(mean <= mean * n) by (nonlinear_arith)
            requires
                n >= 1,
                mean >= 0,
        ;
        law_quotient_of_wholes(mean, n);
    }
    lemma_fallback();
}

/// Where nothing else is said, reports count for five minutes.
pub proof fn law_reports_count_for_five_minutes(
    peers: Map<Seq<char>, Report>,
    now: u64,
    k: Seq<char>,
)
    requires
        peers.contains_key(k),
    ensures
        active(peers, now, STALE_NANOS).contains_key(k) <==> now < peers[k].seen + 300_000_000_000,
{
}

/// Without active peers the median is 25.
pub proof fn law_median_without_peers(peers: Map<Seq<char>, Report>, m: u64)
    requires
        peers.dom().is_empty(),
        is_median(peers, m),
    ensures
        m == of_whole(25),
{
    lemma_fallback();
}

/// The mean of local runs is their sum over their number, and each run adds its speed to the sum:
/// no double lies between either and what it is rounded to.
pub proof fn law_local_mean_is_faithful(history: Seq<u64>, tps: u64, c: u64)
    requires
        history.len() < 10,
        magnitude(tps) < INFINITY,
        magnitude(c) < INFINITY,
        magnitude(sum_of(history)) < INFINITY,
        magnitude(sum_of(history.push(tps))) < INFINITY,
    ensures
        ({
            let before = signed_units(sum_of(history));
            let total = sum_of(history.push(tps));
            let mean = local_mean(history.push(tps));
            let n = history.len() + 1;
            let one = vstd::arithmetic::power2::pow2(1074);
            let w = signed_units(c);
            &&& w <= before + signed_units(tps) ==> place(c) <= place(total)
            &&& w >= before + signed_units(tps) ==> place(c) >= place(total)
            &&& w * (n * one) <= signed_units(total) * one ==> place(c) <= place(mean)
            &&& w * (n * one) >= signed_units(total) * one ==> place(c) >= place(mean)
            &&& signed_units(sum_of(Seq::empty())) == 0
        }),
{
    let longer = history.push(tps);
    assert(longer.drop_last() == history);
    assert(longer.last() == tps);
    crate::float_laws::law_sum_is_faithful(sum_of(history), tps, c);
    let n = longer.len() as u64;
    law_whole_is_exact(n);
    crate::float64::lemma_whole_bounds(n);
    crate::float_laws::law_quotient_is_faithful(sum_of(longer), of_whole(n), c);
    assert(units(SIGN_BIT) == 0 && magnitude(SIGN_BIT) == 0);
}

} // verus!
