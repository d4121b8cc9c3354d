//! What nodes have earned as a reputation.
use crate::clock::{is_present, unix_time_or_zero};
use crate::float64::{
    divide, from_whole, is_less, is_nan, less, multiply, of_whole, opposite, place, product,
    quotient, stands_before, subtract, sum, INFINITY, ONE, SIGN_BIT,
};
use crate::table::Table;
use vstd::prelude::*;

verus! {

/// The decay of a score per hour, 0.01 as a double. After 24 hours unseen what sets a score apart
/// from the default is multiplied by about 0.79, after 7 days by about 0.19.
pub const DECAY_LAMBDA: u64 = 0x3f84_7ae1_47ae_147b;

/// The score of an unknown node, 0.5 as a double.
pub const DEFAULT_SCORE: u64 = 0x3fe0_0000_0000_0000;

/// The weight of the success rate, 0.7 as a double.
pub const SUCCESS_WEIGHT: u64 = 0x3fe6_6666_6666_6666;

/// The weight of the speed, 0.3 as a double.
pub const SPEED_WEIGHT: u64 = 0x3fd3_3333_3333_3333;

/// The speed that counts in full, 50 tokens per second as a double.
pub const FULL_SPEED: u64 = 0x4049_0000_0000_0000;

/// The seconds of an hour, 3600 as a double.
pub const SECONDS_PER_HOUR: u64 = 0x40ac_2000_0000_0000;

/// The age in seconds up to which the history of a node is kept: 7 days.
pub const MAX_STALE_AGE_SECS: u64 = 604_800;

/// The history of a node.
#[derive(Debug)]
pub struct NodeReputation {
    pub node_id: String,
    pub successes: u32,
    pub failures: u32,
    /// The sum of all latencies in seconds, a double.
    pub total_latency_secs: u64,
    pub total_tokens_generated: u32,
    /// The time of the last success, in seconds since the Unix epoch.
    pub last_seen: u64,
}

/// The values of a history.
pub struct ReputationView {
    pub node_id: Seq<char>,
    pub successes: u32,
    pub failures: u32,
    pub total_latency_secs: u64,
    pub total_tokens_generated: u32,
    pub last_seen: u64,
}

impl View for NodeReputation {
    type V = ReputationView;

    open spec fn view(&self) -> ReputationView {
        ReputationView {
            node_id: self.node_id@,
            successes: self.successes,
            failures: self.failures,
            total_latency_secs: self.total_latency_secs,
            total_tokens_generated: self.total_tokens_generated,
            last_seen: self.last_seen,
        }
    }
}

impl Clone for NodeReputation {
    fn clone(&self) -> (r: Self)
        ensures
            r@ == self@,
    {
        NodeReputation {
            node_id: self.node_id.clone(),
            successes: self.successes,
            failures: self.failures,
            total_latency_secs: self.total_latency_secs,
            total_tokens_generated: self.total_tokens_generated,
            last_seen: self.last_seen,
        }
    }
}

/// The history of a node that was first heard of at the time `now`.
pub open spec fn unproven(node_id: Seq<char>, now: u64) -> ReputationView {
    ReputationView {
        node_id,
        successes: 0,
        failures: 0,
        total_latency_secs: 0,
        total_tokens_generated: 0,
        last_seen: now,
    }
}

/// Whether successes and failures can be counted together.
pub open spec fn countable(r: ReputationView) -> bool {
    r.successes + r.failures <= u32::MAX
}

/// The lesser of two doubles; the other one where one is no number.
pub open spec fn lesser(a: u64, b: u64) -> u64 {
    if is_nan(a) || less(b, a) {
        b
    } else {
        a
    }
}

/// The share of successes.
pub open spec fn success_share(r: ReputationView) -> u64 {
    if r.successes + r.failures == 0 {
        DEFAULT_SCORE
    } else {
        quotient(of_whole(r.successes as u64), of_whole((r.successes + r.failures) as u64))
    }
}

/// The tokens per second over all successes.
pub open spec fn mean_speed(r: ReputationView) -> u64 {
    if (!is_nan(r.total_latency_secs) && place(r.total_latency_secs) <= 0)
        || r.total_tokens_generated == 0 {
        0
    } else {
        quotient(of_whole(r.total_tokens_generated as u64), r.total_latency_secs)
    }
}

/// The score before decay: 0.7 times the share of successes plus 0.3 times the speed, of which no
/// more than the full speed counts.
pub open spec fn base_score(r: ReputationView) -> u64 {
    sum(
        product(success_share(r), SUCCESS_WEIGHT),
        product(lesser(quotient(mean_speed(r), FULL_SPEED), ONE), SPEED_WEIGHT),
    )
}

/// The exponent of the decay of a history at the time `now`: the hours since the node was seen,
/// times the decay per hour, negative.
pub open spec fn exponent(r: ReputationView, now: u64) -> u64 {
    let age: u64 = if now >= r.last_seen {
        (now - r.last_seen) as u64
    } else {
        0
    };
    product(opposite(DECAY_LAMBDA), quotient(of_whole(age), SECONDS_PER_HOUR))
}

/// The score with the given decay factor: it moves from the base score towards the default.
pub open spec fn score(r: ReputationView, decay: u64) -> u64 {
    if r.successes + r.failures == 0 {
        DEFAULT_SCORE
    } else {
        sum(DEFAULT_SCORE, product(sum(base_score(r), opposite(DEFAULT_SCORE)), decay))
    }
}

impl NodeReputation {
    /// The history of a node that is first heard of now.
    pub fn new(node_id: String) -> (r: NodeReputation)
        ensures
            exists|now: u64| is_present(now) && r@ == #[trigger] unproven(node_id@, now),
    {
        let now = unix_time_or_zero();
        NodeReputation::first_seen(node_id, now)
    }

    /// The history of a node that was first heard of at the time `now`.
    pub fn first_seen(node_id: String, now: u64) -> (r: NodeReputation)
        ensures
            r@ == unproven(node_id@, now),
    {
        NodeReputation {
            node_id,
            successes: 0,
            failures: 0,
            total_latency_secs: 0,
            total_tokens_generated: 0,
            last_seen: now,
        }
    }

    /// The share of successes, a double.
    pub fn success_rate(&self) -> (r: u64)
        requires
            countable(self@),
        ensures
            r == success_share(self@),
    {
        let total: u32 = self.successes + self.failures;
        if total == 0 {
            return DEFAULT_SCORE;
        }
        divide(from_whole(self.successes as u64), from_whole(total as u64))
    }

    /// The tokens per second over all successes, a double.
    pub fn average_tps(&self) -> (r: u64)
        ensures
            r == mean_speed(self@),
    {
        let undefined = self.total_latency_secs % SIGN_BIT > INFINITY;
        if (!undefined && !stands_before(0, self.total_latency_secs)) || self.total_tokens_generated
            == 0 {
            return 0;
        }
        divide(from_whole(self.total_tokens_generated as u64), self.total_latency_secs)
    }

    /// The exponent of the decay factor at the time `now`, a double. The factor is e to that
    /// power.
    pub fn decay_exponent(&self, now: u64) -> (r: u64)
        ensures
            r == exponent(self@, now),
    {
        let age: u64 = now.saturating_sub(self.last_seen);
        let hours: u64 = divide(from_whole(age), SECONDS_PER_HOUR);
        let lambda: u64 = SIGN_BIT + DECAY_LAMBDA;
        assert(lambda == opposite(DECAY_LAMBDA));
        multiply(lambda, hours)
    }

    /// The score with the given decay factor, both doubles.
    pub fn calculate_score(&self, decay: u64) -> (r: u64)
        requires
            countable(self@),
        ensures
            r == score(self@, decay),
    {
        if self.successes + self.failures == 0 {
            return DEFAULT_SCORE;
        }
        let ratio: u64 = divide(self.average_tps(), FULL_SPEED);
        let speed_index: u64 = if ratio % SIGN_BIT > INFINITY || is_less(ONE, ratio) {
            ONE
        } else {
            ratio
        };
        let base: u64 = crate::float64::add(
            multiply(self.success_rate(), SUCCESS_WEIGHT),
            multiply(speed_index, SPEED_WEIGHT),
        );
        crate::float64::add(DEFAULT_SCORE, multiply(subtract(base, DEFAULT_SCORE), decay))
    }
}

/// The histories of all nodes.
pub type Records = Map<Seq<char>, ReputationView>;

/// The history of a node, or that of a node first heard of now.
pub open spec fn history(m: Records, node_id: Seq<char>, now: u64) -> ReputationView {
    if m.contains_key(node_id) {
        m[node_id]
    } else {
        unproven(node_id, now)
    }
}

/// Whether one more success with its tokens can be counted for a node.
pub open spec fn room_for_success(m: Records, node_id: Seq<char>, tokens: u32) -> bool {
    let r = history(m, node_id, 0);
    r.successes + r.failures < u32::MAX && r.total_tokens_generated + tokens <= u32::MAX
}

/// Whether one more failure can be counted for a node.
pub open spec fn room_for_failure(m: Records, node_id: Seq<char>) -> bool {
    let r = history(m, node_id, 0);
    r.successes + r.failures < u32::MAX
}

/// The histories after a success at the time `now`.
pub open spec fn after_success(
    m: Records,
    node_id: Seq<char>,
    latency_secs: u64,
    tokens: u32,
    now: u64,
) -> Records {
    let r = history(m, node_id, now);
    m.insert(
        node_id,
        ReputationView {
            node_id: r.node_id,
            successes: (r.successes + 1) as u32,
            failures: r.failures,
            total_latency_secs: sum(r.total_latency_secs, latency_secs),
            total_tokens_generated: (r.total_tokens_generated + tokens) as u32,
            last_seen: now,
        },
    )
}

/// The histories after a failure at the time `now`.
pub open spec fn after_failure(m: Records, node_id: Seq<char>, now: u64) -> Records {
    let r = history(m, node_id, now);
    m.insert(node_id, ReputationView { failures: (r.failures + 1) as u32, ..r })
}

/// Whether a history is too old to be kept at the time `now`.
pub open spec fn is_stale(r: ReputationView, now: u64) -> bool {
    now - r.last_seen > MAX_STALE_AGE_SECS
}

/// The histories that are not too old at the time `now`.
pub open spec fn pruned(m: Records, now: u64) -> Records {
    Map::new(|k: Seq<char>| m.contains_key(k) && !is_stale(m[k], now), |k: Seq<char>| m[k])
}

/// The score of a node; the default for one that is not known.
pub open spec fn score_of(m: Records, node_id: Seq<char>, decay: u64) -> u64 {
    if m.contains_key(node_id) {
        score(m[node_id], decay)
    } else {
        DEFAULT_SCORE
    }
}

/// The histories of nodes, which belong to a file.
pub struct ReputationDb {
    file_path: String,
    records: Table<NodeReputation>,
}

impl View for ReputationDb {
    type V = Records;

    closed spec fn view(&self) -> Records {
        self.records@.map_values(|r: NodeReputation| r@)
    }
}

/// Whether all histories of a table can be counted.
pub open spec fn all_countable(records: Table<NodeReputation>) -> bool {
    forall|k: Seq<char>| #[trigger]
        records@.contains_key(k) ==> countable(records@[k]@)
}

impl ReputationDb {
    /// Whether the table is well formed and all histories can be counted.
    pub closed spec fn wf(&self) -> bool {
        self.records.wf() && all_countable(self.records)
    }

    /// The path of the file that the histories belong to.
    pub closed spec fn path(&self) -> Seq<char> {
        self.file_path@
    }

    /// The histories of a file. `stored` is what could be read from the file; without it the
    /// histories start empty.
    pub fn new(file_path: &str, stored: Option<Table<NodeReputation>>) -> (r: ReputationDb)
        requires
            stored is Some ==> stored->Some_0.wf() && all_countable(stored->Some_0),
        ensures
            r.wf(),
            r.path() == file_path@,
            r@ == match stored {
                Some(t) => t@.map_values(|x: NodeReputation| x@),
                None => Map::empty(),
            },
    {
        let records = match stored {
            Some(t) => t,
            None => {
                let t: Table<NodeReputation> = Table::new();
                assert(t@.map_values(|x: NodeReputation| x@) == Map::<
                    Seq<char>,
                    ReputationView,
                >::empty());
                t
            },
        };
        ReputationDb { file_path: file_path.to_owned(), records }
    }

    /// The path of the file that the histories belong to.
    pub fn file_path(&self) -> (r: &str)
        ensures
            r@ == self.path(),
    {
        &self.file_path
    }

    /// All histories.
    pub fn records(&self) -> (r: &Table<NodeReputation>)
        requires
            self.wf(),
        ensures
            r.wf(),
            r@.map_values(|x: NodeReputation| x@) == self@,
    {
        &self.records
    }

    /// The exponent of the decay factor of a node at the time `now`; zero for one that is not
    /// known.
    pub fn decay_exponent(&self, node_id: &str, now: u64) -> (r: u64)
        requires
            self.wf(),
        ensures
            r == (if self@.contains_key(node_id@) {
                exponent(self@[node_id@], now)
            } else {
                0
            }),
    {
        match self.records.get(node_id) {
            Some(record) => record.decay_exponent(now),
            None => 0,
        }
    }

    /// The score of a node with the given decay factor.
    pub fn get_score(&self, node_id: &str, decay: u64) -> (r: u64)
        requires
            self.wf(),
        ensures
            r == score_of(self@, node_id@, decay),
    {
        match self.records.get(node_id) {
            Some(record) => record.calculate_score(decay),
            None => DEFAULT_SCORE,
        }
    }

    fn entry(&self, node_id: &str, now: u64) -> (r: NodeReputation)
        requires
            self.wf(),
        ensures
            r@ == history(self@, node_id@, now),
            countable(r@),
    {
        match self.records.get(node_id) {
            Some(record) => record.clone(),
            None => NodeReputation::first_seen(node_id.to_owned(), now),
        }
    }

    fn put(&mut self, node_id: &str, record: NodeReputation)
        requires
            old(self).wf(),
            countable(record@),
        ensures
            final(self).wf(),
            final(self).path() == old(self).path(),
            final(self)@ == old(self)@.insert(node_id@, record@),
    {
        self.records.insert(node_id.to_owned(), record);
        assert(self@ == old(self)@.insert(node_id@, record@));
    }

    /// Whether one more success with its tokens can be counted for a node.
    pub fn can_record_success(&self, node_id: &str, tokens: u32) -> (r: bool)
        requires
            self.wf(),
        ensures
            r == room_for_success(self@, node_id@, tokens),
    {
        let record = self.entry(node_id, 0);
        record.successes + record.failures < u32::MAX && record.total_tokens_generated <= u32::MAX
            - tokens
    }

    /// Whether one more failure can be counted for a node.
    pub fn can_record_failure(&self, node_id: &str) -> (r: bool)
        requires
            self.wf(),
        ensures
            r == room_for_failure(self@, node_id@),
    {
        let record = self.entry(node_id, 0);
        record.successes + record.failures < u32::MAX
    }

    /// Count a success of a node now.
    pub fn record_success(&mut self, node_id: &str, latency_secs: u64, tokens: u32)
        requires
            old(self).wf(),
            room_for_success(old(self)@, node_id@, tokens),
        ensures
            final(self).wf(),
            final(self).path() == old(self).path(),
            exists|now: u64|
                is_present(now) && final(self)@ == #[trigger] after_success(
                    old(self)@,
                    node_id@,
                    latency_secs,
                    tokens,
                    now,
                ),
    {
        let now = unix_time_or_zero();
        self.record_success_at(node_id, latency_secs, tokens, now);
    }

    /// Count a success of a node at the time `now`.
    pub fn record_success_at(&mut self, node_id: &str, latency_secs: u64, tokens: u32, now: u64)
        requires
            old(self).wf(),
            room_for_success(old(self)@, node_id@, tokens),
        ensures
            final(self).wf(),
            final(self).path() == old(self).path(),
            final(self)@ == after_success(old(self)@, node_id@, latency_secs, tokens, now),
            ({
                let before = history(old(self)@, node_id@, now);
                let after = final(self)@[node_id@];
                &&& after.successes == before.successes + 1
                &&& after.failures == before.failures
                &&& after.total_tokens_generated == before.total_tokens_generated + tokens
                &&& after.last_seen == now
            }),
    {
        let mut record = self.entry(node_id, now);
        record.successes = record.successes + 1;
        record.total_latency_secs = crate::float64::add(record.total_latency_secs, latency_secs);
        record.total_tokens_generated = record.total_tokens_generated + tokens;
        record.last_seen = now;
        self.put(node_id, record);
    }

    /// Count a failure of a node now.
    pub fn record_failure(&mut self, node_id: &str)
        requires
            old(self).wf(),
            room_for_failure(old(self)@, node_id@),
        ensures
            final(self).wf(),
            final(self).path() == old(self).path(),
            exists|now: u64|
                is_present(now) && final(self)@ == #[trigger] after_failure(
                    old(self)@,
                    node_id@,
                    now,
                ),
    {
        let now = unix_time_or_zero();
        self.record_failure_at(node_id, now);
    }

    /// Count a failure of a node at the time `now`.
    pub fn record_failure_at(&mut self, node_id: &str, now: u64)
        requires
            old(self).wf(),
            room_for_failure(old(self)@, node_id@),
        ensures
            final(self).wf(),
            final(self).path() == old(self).path(),
            final(self)@ == after_failure(old(self)@, node_id@, now),
            ({
                let before = history(old(self)@, node_id@, now);
                let after = final(self)@[node_id@];
                &&& after.failures == before.failures + 1
                &&& after.successes == before.successes
                &&& after.total_tokens_generated == before.total_tokens_generated
                &&& after.total_latency_secs == before.total_latency_secs
                &&& after.last_seen == before.last_seen
            }),
    {
        let mut record = self.entry(node_id, now);
        record.failures = record.failures + 1;
        self.put(node_id, record);
    }

    /// Drop the histories that are too old. Returns whether there were any, which is when the
    /// histories are to be written to their file.
    pub fn prune_stale(&mut self) -> (dropped: bool)
        requires
            old(self).wf(),
        ensures
            final(self).wf(),
            final(self).path() == old(self).path(),
            exists|now: u64|
                is_present(now) && final(self)@ == #[trigger] pruned(old(self)@, now) && dropped == (pruned(
                    old(self)@,
                    now,
                ) != old(self)@),
    {
        let now = unix_time_or_zero();
        self.prune_stale_at(now)
    }

    /// Drop the histories that are too old at the time `now`. Returns whether there were any.
    pub fn prune_stale_at(&mut self, now: u64) -> (dropped: bool)
        requires
            old(self).wf(),
        ensures
            final(self).wf(),
            final(self).path() == old(self).path(),
            final(self)@ == pruned(old(self)@, now),
            dropped == (pruned(old(self)@, now) != old(self)@),
    {
        let mut stale: Vec<String> = Vec::new();
        let ghost rows = self.records.row_seq();
        let mut i: usize = 0;
        while i < self.records.len()
            invariant
                self.wf(),
                *self == *old(self),
                rows == self.records.row_seq(),
                i <= rows.len(),
                forall|j: int|
                    0 <= j < stale@.len() ==> exists|k: int|
                        0 <= k < i && (#[trigger] rows[k]).0 == (#[trigger] stale@[j])@ && is_stale(
                            rows[k].1@,
                            now,
                        ),
                forall|k: int|
                    0 <= k < i && is_stale((#[trigger] rows[k]).1@, now) ==> exists|j: int|
                        0 <= j < stale@.len() && (#[trigger] stale@[j])@ == rows[k].0,
            decreases rows.len() - i,
        {
            let record = self.records.value(i);
            if now.saturating_sub(record.last_seen) > MAX_STALE_AGE_SECS {
                let key = self.records.key(i).clone();
                let ghost before = stale@;
                stale.push(key);
                proof {
                    assert(rows[i as int].0 == key@);
                    assert forall|j: int| 0 <= j < stale@.len() implies exists|k: int|
                        0 <= k < i + 1 && (#[trigger] rows[k]).0 == (#[trigger] stale@[j])@
                            && is_stale(rows[k].1@, now) by {
                        if j < before.len() {
                            assert(stale@[j] == before[j]);
                            let k = choose|k: int|
                                0 <= k < i && (#[trigger] rows[k]).0 == before[j]@ && is_stale(
                                    rows[k].1@,
                                    now,
                                );
                            assert(rows[k].0 == stale@[j]@);
                        } else {
                            assert(rows[i as int].0 == stale@[j]@);
                        }
                    }
                    assert forall|k: int| 0 <= k < i + 1 && is_stale(
                        (#[trigger] rows[k]).1@,
                        now,
                    ) implies exists|j: int|
                        0 <= j < stale@.len() && (#[trigger] stale@[j])@ == rows[k].0 by {
                        if k < i {
                            let j = choose|j: int|
                                0 <= j < before.len() && (#[trigger] before[j])@ == rows[k].0;
                            assert(stale@[j]@ == rows[k].0);
                        } else {
                            assert(stale@[before.len() as int]@ == rows[k].0);
                        }
                    }
                }
            }
            i += 1;
        }
        let ghost start = self.records@;
        let ghost keys = crate::table::text_set(stale@);
        proof {
            let views = stale@.map_values(|t: String| t@);
            assert forall|k: Seq<char>| start.contains_key(k) implies (#[trigger] keys.contains(k)
                <==> is_stale(start[k]@, now)) by {
                crate::table::lemma_map_of_contains(rows, k);
                let r = choose|r: int| 0 <= r < rows.len() && (#[trigger] rows[r]).0 == k;
                crate::table::lemma_map_of_row(rows, r);
                if keys.contains(k) {
                    let j = choose|j: int| 0 <= j < views.len() && views[j] == k;
                    assert(stale@[j]@ == k);
                    let q = choose|q: int|
                        0 <= q < rows.len() && (#[trigger] rows[q]).0 == stale@[j]@ && is_stale(
                            rows[q].1@,
                            now,
                        );
                    crate::table::lemma_map_of_row(rows, q);
                }
                if is_stale(start[k]@, now) {
                    let j = choose|j: int|
                        0 <= j < stale@.len() && (#[trigger] stale@[j])@ == rows[r].0;
                    assert(views[j] == k);
                }
            }
            if stale@.len() > 0 {
                let k = choose|k: int|
                    0 <= k < rows.len() && (#[trigger] rows[k]).0 == stale@[0]@ && is_stale(
                        rows[k].1@,
                        now,
                    );
                crate::table::lemma_map_of_row(rows, k);
                assert(self@.contains_key(rows[k].0));
                assert(!pruned(self@, now).contains_key(rows[k].0));
            } else {
                assert forall|k: Seq<char>| start.contains_key(k) implies !is_stale(
                    #[trigger] start[k]@,
                    now,
                ) by {
                    assert(keys.contains(k) <==> is_stale(start[k]@, now));
                    if keys.contains(k) {
                        let j = choose|j: int| 0 <= j < views.len() && views[j] == k;
                    }
                }
                assert(pruned(self@, now) == self@);
            }
        }
        self.records.remove_all(&stale);
        assert(self@ == pruned(old(self)@, now));
        stale.len() > 0
    }
}

/// What is recorded of one node leaves the scores of all other nodes as they are.
pub proof fn law_records_are_separate(
    m: Records,
    node_id: Seq<char>,
    other: Seq<char>,
    latency_secs: u64,
    tokens: u32,
    now: u64,
    decay: u64,
)
    requires
        node_id != other,
    ensures
        score_of(after_success(m, node_id, latency_secs, tokens, now), other, decay) == score_of(
            m,
            other,
            decay,
        ),
        score_of(after_failure(m, node_id, now), other, decay) == score_of(m, other, decay),
{
}

/// A failure does not make a node seem more recently seen.
pub proof fn law_failure_keeps_last_seen(m: Records, node_id: Seq<char>, now: u64)
    requires
        m.contains_key(node_id),
    ensures
        after_failure(m, node_id, now)[node_id].last_seen == m[node_id].last_seen,
        after_failure(m, node_id, now)[node_id].successes == m[node_id].successes,
{
}

/// A node that was just successful is not dropped within 7 days, and dropping twice is dropping
/// once, at the later time.
pub proof fn law_pruning(
    m: Records,
    node_id: Seq<char>,
    latency_secs: u64,
    tokens: u32,
    now: u64,
    later: u64,
)
    requires
        now <= later,
    ensures
        later - now <= MAX_STALE_AGE_SECS ==> pruned(
            after_success(m, node_id, latency_secs, tokens, now),
            later,
        ).contains_key(node_id),
        pruned(pruned(m, now), later) == pruned(m, later),
{
    assert(pruned(pruned(m, now), later) == pruned(m, later));
}

/// The speed counts for no less than nothing and no more than in full.
proof fn lemma_speed_index(r: ReputationView)
    ensures
        ({
            let x = lesser(quotient(mean_speed(r), FULL_SPEED), ONE);
            !crate::float64::is_negative(x) && crate::float64::magnitude(x) <= ONE
        }),
{
    crate::float64::lemma_whole_bounds(r.total_tokens_generated as u64);
    let v = mean_speed(r);
    if !is_nan(v) {
        let l = r.total_latency_secs;
        if v != 0 {
            assert(!crate::float64::is_negative(l));
            lemma_sign_of_quotient(of_whole(r.total_tokens_generated as u64), l);
        }
        assert(!crate::float64::is_negative(v));
        lemma_sign_of_quotient(v, FULL_SPEED);
    }
}

pub(crate) proof fn lemma_sign_of_quotient(a: u64, b: u64)
    requires
        !crate::float64::is_negative(a),
        !crate::float64::is_negative(b),
    ensures
        !crate::float64::is_negative(quotient(a, b)),
{
    if !is_nan(a) && !is_nan(b) && crate::float64::magnitude(b) > 0 && crate::float64::magnitude(b)
        < INFINITY && crate::float64::magnitude(a) < INFINITY {
        crate::float64::lemma_units_exact(b);
        if crate::float64::units(b) == 0 {
            assert(crate::float64::units(0) == 0 && crate::float64::magnitude(0) == 0);
            crate::float64::lemma_units_exact(0);
        }
        let n = crate::float64::units(a) * vstd::arithmetic::power2::pow2(1074);
        crate::float64::lemma_rounded_monotone(n, n, crate::float64::units(b));
    }
}

/// Two shares, weighted, make no more than one.
proof fn lemma_weighted(share: u64, index: u64)
    requires
        !crate::float64::is_negative(share),
        crate::float64::magnitude(share) <= ONE,
        !crate::float64::is_negative(index),
        crate::float64::magnitude(index) <= ONE,
    ensures
        ({
            let x = sum(product(share, SUCCESS_WEIGHT), product(index, SPEED_WEIGHT));
            !crate::float64::is_negative(x) && crate::float64::magnitude(x) <= ONE
        }),
{
    let p = product(share, SUCCESS_WEIGHT);
    let q = product(index, SPEED_WEIGHT);
    crate::float64::lemma_product_of_shares(share, SUCCESS_WEIGHT);
    crate::float64::lemma_product_of_shares(index, SPEED_WEIGHT);
    crate::float64::lemma_units_monotone(p, SUCCESS_WEIGHT);
    crate::float64::lemma_units_monotone(q, SPEED_WEIGHT);
    crate::float64::lemma_units_of(SUCCESS_WEIGHT, 0x16_6666_6666_6666, 1022);
    crate::float64::lemma_units_of(SPEED_WEIGHT, 0x13_3333_3333_3333, 1021);
    crate::float64::lemma_one();
    vstd::arithmetic::power2::lemma_pow2_adds(1, 1020);
    vstd::arithmetic::power2::lemma_pow2_adds(54, 1020);
    assert(vstd::arithmetic::power2::pow2(1) == 2 && vstd::arithmetic::power2::pow2(54)
        == 0x40_0000_0000_0000) by {
        vstd::arithmetic::power2::lemma2_to64();
        vstd::arithmetic::power2::lemma2_to64_rest();
    }
    let x = crate::float64::units(p) + crate::float64::units(q);
    vstd::arithmetic::power2::lemma_pow2_pos(1020);
    assert(x <= vstd::arithmetic::power2::pow2(1074));
    crate::float64::lemma_rounded_monotone(x, vstd::arithmetic::power2::pow2(1074), 1);
}

/// The base score lies between zero and one.
pub(crate) proof fn lemma_base_score(r: ReputationView)
    requires
        countable(r),
        r.successes + r.failures > 0,
    ensures
        !crate::float64::is_negative(base_score(r)),
        crate::float64::magnitude(base_score(r)) <= ONE,
{
    let share = success_share(r);
    let index = lesser(quotient(mean_speed(r), FULL_SPEED), ONE);
    crate::float64::lemma_share(r.successes as u64, (r.successes + r.failures) as u64);
    lemma_speed_index(r);
    lemma_weighted(share, index);
}

/// A half is two to the power 1073 units.
pub(crate) proof fn lemma_half()
    ensures
        crate::float64::units(DEFAULT_SCORE) == vstd::arithmetic::power2::pow2(1073),
        vstd::arithmetic::power2::pow2(1074) == 2 * vstd::arithmetic::power2::pow2(1073),
        vstd::arithmetic::power2::pow2(1073) > 0,
        crate::float64::magnitude(DEFAULT_SCORE) == DEFAULT_SCORE,
        crate::float64::magnitude(opposite(DEFAULT_SCORE)) == DEFAULT_SCORE,
        crate::float64::units(opposite(DEFAULT_SCORE)) == vstd::arithmetic::power2::pow2(1073),
        crate::float64::is_negative(opposite(DEFAULT_SCORE)),
        crate::float64::rounded(vstd::arithmetic::power2::pow2(1073), 1) == DEFAULT_SCORE,
{
    crate::float64::lemma_units_of(DEFAULT_SCORE, crate::float64::FRACTION as nat, 1022);
    vstd::arithmetic::power2::lemma_pow2_adds(52, 1021);
    vstd::arithmetic::power2::lemma_pow2_adds(1, 1073);
    vstd::arithmetic::power2::lemma_pow2_pos(1073);
    assert(vstd::arithmetic::power2::pow2(1) == 2 && vstd::arithmetic::power2::pow2(52)
        == crate::float64::FRACTION) by {
        vstd::arithmetic::power2::lemma2_to64();
        vstd::arithmetic::power2::lemma2_to64_rest();
    }
    crate::float64::lemma_units_exact(DEFAULT_SCORE);
    crate::float64::lemma_units_monotone(DEFAULT_SCORE, opposite(DEFAULT_SCORE));
    crate::float64::lemma_units_monotone(opposite(DEFAULT_SCORE), DEFAULT_SCORE);
}

/// What sets a base score apart from the default is no more than a half either way.
pub(crate) proof fn lemma_distance(b: u64)
    requires
        !crate::float64::is_negative(b),
        crate::float64::magnitude(b) <= ONE,
    ensures
        crate::float64::magnitude(sum(b, opposite(DEFAULT_SCORE))) <= DEFAULT_SCORE,
{
    lemma_half();
    crate::float64::lemma_one();
    crate::float64::lemma_units_monotone(b, ONE);
    let half = vstd::arithmetic::power2::pow2(1073);
    let x = crate::float64::units(b) - half;
    if x < 0 {
        crate::float64::lemma_rounded_monotone((-x) as nat, half, 1);
    } else {
        crate::float64::lemma_rounded_monotone(x as nat, half, 1);
    }
}

/// The default with a distance of up to a half, of which a share counts.
spec fn shifted(distance: u64, share: u64) -> u64 {
    sum(DEFAULT_SCORE, product(distance, share))
}

proof fn lemma_shifted_bounds(d: u64, share: u64)
    requires
        crate::float64::magnitude(d) <= DEFAULT_SCORE,
        0 <= place(share) <= ONE,
    ensures
        0 <= place(shifted(d, share)) <= ONE,
{
    let y = product(d, share);
    lemma_half();
    crate::float64::lemma_one();
    crate::float64::lemma_units_monotone(share, ONE);
    crate::float64::lemma_product_bounds(d, share);
    let low = opposite(DEFAULT_SCORE);
    crate::float64::lemma_sum_monotone(DEFAULT_SCORE, low, y);
    crate::float64::lemma_sum_monotone(DEFAULT_SCORE, y, DEFAULT_SCORE);
    assert(crate::float64::signed_units(DEFAULT_SCORE) + crate::float64::signed_units(low) == 0);
    assert(place(sum(DEFAULT_SCORE, low)) == 0);
    assert(crate::float64::signed_units(DEFAULT_SCORE) + crate::float64::signed_units(DEFAULT_SCORE)
        == vstd::arithmetic::power2::pow2(1074));
    assert(place(sum(DEFAULT_SCORE, DEFAULT_SCORE)) == ONE);
}

proof fn lemma_shifted_moves(d: u64, small: u64, great: u64)
    requires
        crate::float64::magnitude(d) <= DEFAULT_SCORE,
        0 <= place(small) <= place(great) <= ONE,
    ensures
        ({
            let near = place(shifted(d, small));
            let far = place(shifted(d, great));
            let default = place(DEFAULT_SCORE);
            (default <= near && near <= far) || (far <= near && near <= default)
        }),
{
    let y = product(d, small);
    let z = product(d, great);
    lemma_half();
    crate::float64::lemma_one();
    crate::float64::lemma_units_monotone(small, ONE);
    crate::float64::lemma_units_monotone(great, ONE);
    crate::float64::lemma_product_bounds(d, small);
    crate::float64::lemma_product_bounds(d, great);
    crate::float64::lemma_product_monotone(d, small, great);
    crate::float64::lemma_sum_zero(DEFAULT_SCORE, 0);
    if place(small) == 0 {
        crate::float64::lemma_product_zero(d, small);
    }
    if place(great) == 0 {
        crate::float64::lemma_product_zero(d, great);
    }
    if place(y) <= 0 && place(z) <= place(y) {
        crate::float64::lemma_sum_monotone(DEFAULT_SCORE, z, y);
        crate::float64::lemma_sum_monotone(DEFAULT_SCORE, y, 0);
    } else {
        assert(0 <= place(y) <= place(z));
        crate::float64::lemma_sum_monotone(DEFAULT_SCORE, y, z);
        crate::float64::lemma_sum_monotone(DEFAULT_SCORE, 0, y);
    }
}

/// Scores lie between zero and one, whatever the history and the decay.
pub proof fn law_score_within_bounds(r: ReputationView, decay: u64)
    requires
        countable(r),
        0 <= place(decay) <= ONE,
    ensures
        0 <= place(score(r, decay)) <= ONE,
{
    if r.successes + r.failures > 0 {
        lemma_base_score(r);
        lemma_distance(base_score(r));
        lemma_shifted_bounds(sum(base_score(r), opposite(DEFAULT_SCORE)), decay);
    }
}

/// A score moves towards the default as its decay factor falls: it stays on its side of the
/// default and does not go away from it.
pub proof fn law_score_moves_to_default(r: ReputationView, small: u64, great: u64)
    requires
        countable(r),
        0 <= place(small) <= place(great) <= ONE,
    ensures
        ({
            let near = place(score(r, small));
            let far = place(score(r, great));
            let default = place(DEFAULT_SCORE);
            (default <= near && near <= far) || (far <= near && near <= default)
        }),
{
    if r.successes + r.failures > 0 {
        lemma_base_score(r);
        lemma_distance(base_score(r));
        lemma_shifted_moves(sum(base_score(r), opposite(DEFAULT_SCORE)), small, great);
    }
}

} // verus!
