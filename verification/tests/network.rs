use itoken::network::{
    read_gossip, read_health, Gossip, P2PInferenceRequest, P2PRequest, P2PResponse, Pending,
    HEALTH_TOPIC, LEDGER_TOPIC, NANOS_PER_SEC,
};
use itoken::network_stats::NetworkStats;
use itoken::node::hear_gossip;
use itoken::receipt::InferenceReceipt;
use itoken::request::InferenceRequest;
use itoken::table::{Table, TextSet};

fn receipt() -> InferenceReceipt {
    InferenceReceipt {
        receipt_id: "test-receipt-id".to_string(),
        client_pubkey: "alice-key".to_string(),
        node_pubkey: "node1-key".to_string(),
        query_hash: "hash".to_string(),
        tokens_generated: 10,
        tps: 20.0f64.to_bits(),
        network_median_tps: 20.0f64.to_bits(),
        tqw_nano: 10_000_000,
        amount_nano: 200_000_000,
        timestamp: 1700000000,
        node_signature: None,
        client_signature: None,
    }
}

#[test]
fn messages_can_be_copied() {
    let request = P2PRequest::Inference(P2PInferenceRequest {
        req: InferenceRequest {
            request_id: "r-1".to_string(),
            prompt: "hello".to_string(),
            model: "mock-model".to_string(),
            max_tokens: Some(50),
            temperature: 0.7f32.to_bits(),
        },
        client_pubkey: "alice-key".to_string(),
    });
    match request.clone() {
        P2PRequest::Inference(r) => {
            assert_eq!(r.req.request_id, "r-1");
            assert_eq!(r.client_pubkey, "alice-key");
        }
        P2PRequest::SyncLedger => panic!("Expected inference"),
    }
    assert!(matches!(P2PRequest::SyncLedger.clone(), P2PRequest::SyncLedger));
    let success = P2PResponse::InferenceSuccess {
        text: "Response from node1".to_string(),
        receipt: receipt(),
    };
    match success.duplicate() {
        P2PResponse::InferenceSuccess { text, receipt } => {
            assert_eq!(text, "Response from node1");
            assert_eq!(receipt.receipt_id, "test-receipt-id");
        }
        _ => panic!("Expected inference success"),
    }
    let mut balances: Table<u64> = Table::new();
    balances.insert("alice".to_string(), 1000);
    let mut claimed_receipts = TextSet::new();
    claimed_receipts.insert("r1".to_string());
    match (P2PResponse::LedgerSync { balances, claimed_receipts }).duplicate() {
        P2PResponse::LedgerSync { balances, claimed_receipts } => {
            assert_eq!(balances.get("alice"), Some(&1000));
            assert!(claimed_receipts.contains("r1"));
        }
        _ => panic!("Expected ledger sync success"),
    }
    assert!(matches!(P2PResponse::Error("x".to_string()).duplicate(), P2PResponse::Error(_)));
}

#[test]
fn health_reports_are_read() {
    let data = b"{\"peer_id\":\"p\",\"models\":[\"a\",7,\"b\"],\"tps_avg\":31.5,\"timestamp\":5}";
    match read_gossip(HEALTH_TOPIC, "peer", data.to_vec()) {
        Gossip::Health { peer_id, tps_avg, models } => {
            assert_eq!(peer_id, "peer");
            assert_eq!(f64::from_bits(tps_avg), 31.5);
            assert_eq!(models, vec!["a", "b"]);
        }
        other => panic!("{:?}", other),
    }
    let bad: Vec<&[u8]> = vec![
        b"{\"models\":[],\"tps_avg\":\"x\"}",
        b"{\"models\":{},\"tps_avg\":1}",
        b"{\"tps_avg\":1}",
        b"[1]",
        b"not json",
        b"{\"models\":[],\"tps_avg\":1,\"x\":\"\xff\"}",
        b"{\"models\":[],\"tps_avg\":1e999}",
    ];
    for data in bad {
        assert!(matches!(read_gossip(HEALTH_TOPIC, "peer", data.to_vec()), Gossip::Nothing));
    }
    let whole = read_gossip(HEALTH_TOPIC, "p", b"{\"models\":[],\"tps_avg\":3}".to_vec());
    assert!(matches!(whole, Gossip::Health { tps_avg, .. } if f64::from_bits(tps_avg) == 3.0));
}

#[test]
fn health_from_its_parts() {
    let items = vec![None, Some("m".to_string()), None];
    match read_health("p", Some(1), Some(items)) {
        Gossip::Health { peer_id, tps_avg, models } => {
            assert_eq!((peer_id.as_str(), tps_avg), ("p", 1));
            assert_eq!(models, vec!["m"]);
        }
        other => panic!("{:?}", other),
    }
    assert!(matches!(read_health("p", None, Some(vec![])), Gossip::Nothing));
    assert!(matches!(read_health("p", Some(1), None), Gossip::Nothing));
}

#[test]
fn other_gossip() {
    match read_gossip(LEDGER_TOPIC, "peer", vec![1, 2, 3]) {
        Gossip::Receipt(data) => assert_eq!(data, vec![1, 2, 3]),
        other => panic!("{:?}", other),
    }
    assert!(matches!(read_gossip("itoken/other", "peer", vec![]), Gossip::Nothing));
}

#[test]
fn heard_speeds_count() {
    let mut stats = NetworkStats::new();
    let data = b"{\"models\":[],\"tps_avg\":80}".to_vec();
    hear_gossip(&mut stats, &read_gossip(HEALTH_TOPIC, "p", data), 5);
    hear_gossip(&mut stats, &Gossip::Nothing, 5);
    assert_eq!(f64::from_bits(stats.get_median_tps(6)), 80.0);
}

#[test]
fn searches_collect_peers() {
    let mut pending = Pending::new();
    pending.search_started("1", 0);
    pending.search_started("2", 0);
    pending.peer_found("1", Some("a".to_string()));
    pending.peer_found("1", None);
    pending.peer_found("3", Some("x".to_string()));
    pending.peer_found("1", Some("b".to_string()));
    assert_eq!(pending.search_ended("1"), Some(vec!["a".to_string(), "b".to_string()]));
    assert_eq!(pending.search_ended("1"), None);
    assert_eq!(pending.search_ended("3"), None);
    assert_eq!(pending.search_ended("2"), Some(vec![]));
}

#[test]
fn records_name_peers() {
    let mut pending = Pending::new();
    pending.search_started("1", 0);
    let peer = libp2p::PeerId::random();
    pending.record_found("1", &peer.to_bytes());
    pending.record_found("1", b"no peer");
    pending.record_found("1", b"");
    assert_eq!(pending.search_ended("1"), Some(vec![peer.to_string()]));
}

#[test]
fn overdue_searches_are_ended() {
    let mut pending = Pending::new();
    pending.search_started("old", 0);
    pending.search_started("new", NANOS_PER_SEC);
    pending.peer_found("old", Some("a".to_string()));
    assert!(pending.end_overdue(61 * NANOS_PER_SEC - 1).is_empty());
    let answers = pending.end_overdue(61 * NANOS_PER_SEC);
    assert_eq!(answers.len(), 1);
    assert_eq!(answers[0].id, "old");
    assert_eq!(answers[0].peers, vec!["a"]);
    assert_eq!(pending.search_ended("old"), None);
    assert_eq!(pending.search_ended("new"), Some(vec![]));
}

#[test]
fn requests_are_answered_once() {
    let mut pending = Pending::new();
    pending.request_sent("1");
    pending.request_sent("2");
    assert!(pending.response_arrived("1"));
    assert!(!pending.response_arrived("1"));
    assert_eq!(
        pending.request_failed("2", "Timeout"),
        Some("P2P request failed: Timeout".to_string())
    );
    assert_eq!(pending.request_failed("2", "Timeout"), None);
}
