use itoken::clock::{seconds_or_zero, unix_time_or_zero};
use itoken::network_stats::NetworkStats;
use itoken::ranking::ranking;
use itoken::rate_limit::{RateLimiter, REQUEST_LIMIT, WINDOW_NANOS};
use itoken::reputation::{NodeReputation, ReputationDb, DEFAULT_SCORE};
use itoken::routing::HarnessRouter;
use itoken::table::Table;

const NOW: u64 = 1_700_000_000;

fn default_score() -> f64 {
    f64::from_bits(DEFAULT_SCORE)
}

fn score(node: &NodeReputation, now: u64) -> f64 {
    let decay = f64::from_bits(node.decay_exponent(now)).exp();
    f64::from_bits(node.calculate_score(decay.to_bits()))
}

fn bits(x: f64) -> u64 {
    x.to_bits()
}

#[test]
fn test_new_node_default_score() {
    let node = NodeReputation::new("test".to_string());
    let score = score(&node, node.last_seen);
    assert!((score - default_score()).abs() < 0.01, "New node should have default score");
}

#[test]
fn test_score_increases_with_success() {
    let mut node = NodeReputation::new("test".to_string());
    node.successes = 10;
    node.failures = 0;
    node.total_latency_secs = bits(10.0);
    node.total_tokens_generated = 500;
    node.last_seen = NOW;
    assert!(score(&node, NOW) > default_score(), "Good node should score above default");
}

#[test]
fn test_score_decreases_with_failure() {
    let mut node = NodeReputation::new("test".to_string());
    node.successes = 1;
    node.failures = 10;
    node.total_latency_secs = bits(100.0);
    node.total_tokens_generated = 10;
    node.last_seen = NOW;
    assert!(score(&node, NOW) < default_score(), "Bad node should score below default");
}

#[test]
fn test_score_decays_over_time() {
    let mut node = NodeReputation::new("test".to_string());
    node.successes = 100;
    node.failures = 0;
    node.total_latency_secs = bits(100.0);
    node.total_tokens_generated = 5000;
    node.last_seen = NOW;
    let fresh_score = score(&node, NOW);
    node.last_seen -= 7 * 24 * 3600;
    let stale_score = score(&node, NOW);
    assert!(
        stale_score < fresh_score,
        "Score should decay over time: fresh={}, stale={}",
        fresh_score,
        stale_score
    );
    assert!(
        (stale_score - default_score()).abs() < (fresh_score - default_score()).abs(),
        "Stale score should be closer to default"
    );
    assert_eq!(fresh_score, 1.0);
}

#[test]
fn scores_are_those_of_the_machine() {
    for (s, f, latency, tokens, age) in vec![
        (3u32, 1u32, 7.25f64, 200u32, 3600u64),
        (1, 9, 0.0, 100, 0),
        (17, 4, 1e-3, 1, 86_400),
        (5, 5, 123.456, 999, 604_800),
        (0, 3, 0.0, 0, 100),
    ] {
        let mut node = NodeReputation::first_seen("n".to_string(), NOW);
        node.successes = s;
        node.failures = f;
        node.total_latency_secs = bits(latency);
        node.total_tokens_generated = tokens;
        let rate = s as f64 / (s + f) as f64;
        let tps = if latency <= 0.0 || tokens == 0 { 0.0 } else { tokens as f64 / latency };
        let base = (rate * 0.7) + ((tps / 50.0).min(1.0) * 0.3);
        let decay = (-0.01 * (age as f64 / 3600.0)).exp();
        let expected = 0.5 + (base - 0.5) * decay;
        assert_eq!(f64::from_bits(node.success_rate()), rate);
        assert_eq!(f64::from_bits(node.average_tps()), tps);
        assert_eq!(score(&node, NOW + age), expected);
        assert!(expected >= 0.0 && expected <= 1.0);
    }
    let node = NodeReputation::first_seen("n".to_string(), NOW);
    assert_eq!(f64::from_bits(node.decay_exponent(NOW - 5)), 0.0);
    assert_eq!(f64::from_bits(node.success_rate()), 0.5);
}

#[test]
fn histories_are_counted_per_node() {
    let mut db = ReputationDb::new("reputation.json", None);
    assert_eq!(f64::from_bits(db.get_score("a", bits(1.0))), 0.5);
    db.record_success_at("a", bits(1.5), 30, NOW);
    db.record_success_at("a", bits(0.5), 70, NOW + 10);
    db.record_failure_at("a", NOW + 20);
    db.record_failure_at("b", NOW + 30);
    let a = db.records().get("a").unwrap();
    assert_eq!((a.successes, a.failures, a.total_tokens_generated), (2, 1, 100));
    assert_eq!(f64::from_bits(a.total_latency_secs), 2.0);
    assert_eq!(a.last_seen, NOW + 10);
    assert_eq!(a.node_id, "a");
    let b = db.records().get("b").unwrap();
    assert_eq!((b.failures, b.last_seen), (1, NOW + 30));
    assert_eq!(f64::from_bits(db.get_score("b", bits(1.0))), 0.0);
    assert_eq!(db.file_path(), "reputation.json");
    assert_eq!(db.decay_exponent("unknown", NOW), 0);
    db.record_success("c", bits(1.0), 1);
    db.record_failure("c");
    let c = db.records().get("c").unwrap();
    assert!(c.last_seen > NOW && c.successes == 1 && c.failures == 1);
}

#[test]
fn full_counters_are_noticed() {
    let mut table: Table<NodeReputation> = Table::new();
    let mut full = NodeReputation::first_seen("n".to_string(), NOW);
    full.successes = u32::MAX;
    full.total_tokens_generated = 7;
    table.insert("n".to_string(), full);
    let db = ReputationDb::new("x", Some(table));
    assert!(!db.can_record_success("n", 0));
    assert!(!db.can_record_failure("n"));
    assert!(db.can_record_success("m", u32::MAX));
    assert!(db.can_record_failure("m"));
}

#[test]
fn old_histories_are_dropped() {
    let week = 7 * 24 * 3600;
    let mut db = ReputationDb::new("x", None);
    db.record_success_at("old", bits(1.0), 1, NOW);
    db.record_success_at("new", bits(1.0), 1, NOW + 1);
    assert!(!db.prune_stale_at(NOW + week));
    assert!(db.records().get("old").is_some());
    assert!(db.prune_stale_at(NOW + week + 1));
    assert!(!db.prune_stale_at(NOW + week + 1));
    assert!(db.records().get("old").is_none());
    assert!(db.records().get("new").is_some());
    db.record_success("now", bits(1.0), 1);
    assert!(db.prune_stale());
    assert!(db.records().get("new").is_none() && db.records().get("now").is_some());
}

#[test]
fn the_best_candidate_is_tried_first() {
    let mut db = ReputationDb::new("x", None);
    db.record_failure_at("bad", NOW);
    db.record_success_at("good", bits(1.0), 100, NOW);
    let router = HarnessRouter::new(&db);
    let names: Vec<String> =
        vec!["bad", "new1", "good", "new2"].into_iter().map(|s| s.to_string()).collect();
    let one = vec![bits(1.0); 4];
    let (primary, backups) = router.resolve_routing("m", names, &one).unwrap();
    assert_eq!(primary, "good");
    assert_eq!(backups, vec!["new1", "new2", "bad"]);
    let none = router.resolve_routing("m", vec![], &vec![]);
    assert_eq!(none.unwrap_err(), "No active provider nodes available for this model");
}

#[test]
fn rankings_are_stable() {
    let scores = vec![bits(0.5), bits(0.9), bits(0.5), bits(-1.0), bits(0.9), bits(0.0), bits(-0.0)];
    assert_eq!(ranking(&scores), vec![1, 4, 0, 2, 5, 6, 3]);
    assert!(ranking(&vec![]).is_empty());
}

#[test]
fn test_empty_median() {
    let mut stats = NetworkStats::new();
    assert_eq!(f64::from_bits(stats.get_median_tps(0)), 25.0);
}

#[test]
fn test_single_median() {
    let mut stats = NetworkStats::new();
    stats.feed_heartbeat("peer1", bits(50.0), 0);
    assert_eq!(f64::from_bits(stats.get_median_tps(0)), 50.0);
}

#[test]
fn test_odd_median() {
    let mut stats = NetworkStats::new();
    stats.feed_heartbeat("peer1", bits(10.0), 0);
    stats.feed_heartbeat("peer2", bits(50.0), 0);
    stats.feed_heartbeat("peer3", bits(30.0), 0);
    assert_eq!(f64::from_bits(stats.get_median_tps(0)), 30.0);
}

#[test]
fn test_even_median() {
    let mut stats = NetworkStats::new();
    stats.feed_heartbeat("peer1", bits(10.0), 0);
    stats.feed_heartbeat("peer2", bits(20.0), 0);
    stats.feed_heartbeat("peer3", bits(30.0), 0);
    stats.feed_heartbeat("peer4", bits(40.0), 0);
    assert_eq!(f64::from_bits(stats.get_median_tps(0)), 25.0);
}

#[test]
fn test_stale_eviction() {
    let mut stats = NetworkStats::with_stale_duration(50_000_000);
    stats.feed_heartbeat("peer1", bits(50.0), 7);
    assert_eq!(f64::from_bits(stats.get_median_tps(7)), 50.0);
    assert_eq!(f64::from_bits(stats.get_median_tps(100_000_007)), 25.0);
}

#[test]
fn reports_count_until_their_time_is_over() {
    let mut stats = NetworkStats::with_stale_duration(50);
    stats.feed_heartbeat("a", bits(10.0), 0);
    stats.feed_heartbeat("b", bits(90.0), 30);
    assert_eq!(f64::from_bits(stats.get_median_tps(49)), 50.0);
    assert_eq!(f64::from_bits(stats.get_median_tps(50)), 90.0);
    stats.feed_heartbeat("b", bits(70.0), 60);
    assert_eq!(f64::from_bits(stats.get_median_tps(100)), 70.0);
    assert_eq!(f64::from_bits(stats.get_median_tps(10)), 70.0);
}

#[test]
fn test_local_tps_history() {
    let mut stats = NetworkStats::default();
    assert_eq!(f64::from_bits(stats.get_local_avg_tps()), 25.0);
    stats.record_local_inference(bits(10.0));
    stats.record_local_inference(bits(20.0));
    assert_eq!(f64::from_bits(stats.get_local_avg_tps()), 15.0);
    for i in 0..15 {
        stats.record_local_inference(bits(i as f64));
    }
    assert_eq!(f64::from_bits(stats.get_local_avg_tps()), 9.5);
}

#[test]
fn an_address_may_call_so_often_within_the_window() {
    let mut limiter = RateLimiter::new();
    for i in 0..REQUEST_LIMIT {
        assert!(limiter.check_limit("10.0.0.1", REQUEST_LIMIT, WINDOW_NANOS, i as u64));
    }
    assert!(!limiter.check_limit("10.0.0.1", REQUEST_LIMIT, WINDOW_NANOS, 1_000));
    assert!(limiter.check_limit("10.0.0.2", REQUEST_LIMIT, WINDOW_NANOS, 1_000));
    assert!(!limiter.check_limit("10.0.0.1", REQUEST_LIMIT, WINDOW_NANOS, WINDOW_NANOS - 1));
    assert!(limiter.check_limit("10.0.0.1", REQUEST_LIMIT, WINDOW_NANOS, WINDOW_NANOS));
    assert!(!limiter.check_limit("10.0.0.1", REQUEST_LIMIT, WINDOW_NANOS, WINDOW_NANOS));
    assert!(limiter.check_limit("10.0.0.1", REQUEST_LIMIT, WINDOW_NANOS, WINDOW_NANOS + 1));
    assert!(!limiter.check_limit("x", 0, WINDOW_NANOS, 0));
}

#[test]
fn a_clock_that_fails_tells_zero() {
    assert_eq!(seconds_or_zero(&Ok(NOW)), NOW);
    assert_eq!(seconds_or_zero(&Err("second time provided was later".to_string())), 0);
    assert!(unix_time_or_zero() > NOW);
}
