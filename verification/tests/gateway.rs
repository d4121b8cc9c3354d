use itoken::amount::NANO_PER_ITOKEN;
use itoken::crypto::{
    pubkey_to_hex, sha256_hash, verify_receipt_signatures, SigningKey,
};
use itoken::detector::DetectedEngine;
use itoken::gateway::{
    charged_tokens, chat_query, choose_peer, complete_chat, open_request, open_request_as,
    read_chat, refuse_local, remote_query, review_receipt, settle_demo_at, settle_local_at,
    settle_remote, settle_remote_at, stream_chat,
};
use itoken::ledger::LocalLedger;
use itoken::network::P2PResponse;
use itoken::node::{
    answer_query, answer_sync, choose_backend, choose_demo, countersign, demo_request, fresh_id,
    hosted_models, issue_receipt, issue_receipt_as, refuse_query, seed_nano, SyncStep, SyncTask,
    Work, MOCK_BACKEND, MOCK_MODEL,
};
use itoken::receipt::InferenceReceipt;
use itoken::reputation::ReputationDb;
use itoken::request::ModelSpec;
use itoken::routing::HarnessRouter;

const NOW: u64 = 1_700_000_000;

fn client_key() -> SigningKey {
    SigningKey::from_bytes(&[3; 32])
}

fn node_key() -> SigningKey {
    SigningKey::from_bytes(&[4; 32])
}

fn hex(key: &SigningKey) -> String {
    pubkey_to_hex(&key.verifying_key())
}

fn bits(x: f64) -> u64 {
    x.to_bits()
}

fn work() -> Work {
    Work {
        client_pubkey: hex(&client_key()),
        node_pubkey: hex(&node_key()),
        prompt: "why?".to_string(),
        tokens_generated: 100,
        tps: bits(25.0),
        network_median_tps: bits(25.0),
        tqw_nano: 10_000_000,
    }
}

fn ledger() -> LocalLedger {
    let mut l = LocalLedger::new("l", None);
    l.register_account(&hex(&client_key()), 5 * NANO_PER_ITOKEN);
    l
}

fn db() -> ReputationDb {
    ReputationDb::new("r", None)
}

fn reply(r: InferenceReceipt) -> Result<P2PResponse, String> {
    Ok(P2PResponse::InferenceSuccess { text: "answer".to_string(), receipt: r })
}

fn issued(id: &str) -> InferenceReceipt {
    issue_receipt_as(&work(), id.to_string(), NOW, &node_key())
}

#[test]
fn chat_queries_are_read() {
    let q = read_chat(
        "{\"messages\":[{\"content\":\"first\"},{\"role\":\"user\",\"content\":\"last\"}],\"model\":\"m\",\"max_tokens\":7,\"temperature\":0.7,\"stream\":true}",
    );
    assert_eq!((q.prompt.as_str(), q.model.as_str()), ("last", "m"));
    assert_eq!((q.max_tokens, q.temperature, q.stream), (Some(7), 0.7f32.to_bits(), true));
    let d = read_chat("{}");
    assert_eq!((d.prompt.as_str(), d.model.as_str()), ("", "mock-llama3-8b"));
    assert_eq!((d.max_tokens, d.temperature, d.stream), (None, 0, false));
    let odd = read_chat(
        "{\"messages\":[{\"content\":\"x\"},[1]],\"model\":3,\"max_tokens\":-1,\"temperature\":\"x\",\"stream\":1}",
    );
    assert_eq!((odd.prompt.as_str(), odd.model.as_str()), ("", "mock-llama3-8b"));
    assert_eq!((odd.max_tokens, odd.temperature, odd.stream), (None, 0, false));
    assert_eq!(read_chat("{\"messages\":{\"0\":{\"content\":\"x\"}}}").prompt, "");
    assert_eq!(read_chat("{\"messages\":[]}").prompt, "");
}

#[test]
fn chat_queries_from_their_parts() {
    let q = chat_query(Some("p".to_string()), None, Some(9), Some(bits(1.5)), Some(true));
    assert_eq!((q.prompt.as_str(), q.model.as_str()), ("p", MOCK_MODEL));
    assert_eq!((q.max_tokens, q.temperature, q.stream), (Some(9), 1.5f32.to_bits(), true));
}

#[test]
fn requests_are_opened_or_refused() {
    let good = chat_query(Some("p".to_string()), Some("m".to_string()), None, None, None);
    let r = open_request(&good, "0").unwrap();
    assert_eq!(r.request_id.len(), 36);
    assert_eq!((r.prompt.as_str(), r.model.as_str()), ("p", "m"));
    assert_ne!(open_request(&good, "0").unwrap().request_id, r.request_id);
    let bad = open_request(&read_chat("{}"), "0").unwrap_err();
    assert_eq!(bad.status, 400);
    assert_eq!(bad.message, "Validation failed: Prompt cannot be empty");
    let hot = chat_query(Some("p".to_string()), None, None, Some(bits(9.0)), None);
    let refusal = open_request_as(&hot, "id".to_string(), "9").unwrap_err();
    assert_eq!(refusal.message, "Validation failed: Temperature must be 0.0-2, got 9");
}

#[test]
fn peers_are_chosen_by_reputation() {
    let mut db = db();
    db.record_failure_at("a", NOW);
    let router = HarnessRouter::new(&db);
    let names = vec!["a".to_string(), "b".to_string()];
    let ones = vec![bits(1.0); 2];
    assert_eq!(choose_peer(&router, "m", names, &ones), Some("b".to_string()));
    assert_eq!(choose_peer(&router, "m", vec![], &vec![]), None);
    let q = chat_query(Some("p".to_string()), None, None, None, None);
    let req = open_request_as(&q, "id".to_string(), "0").unwrap();
    let remote = remote_query(&req, "key");
    assert_eq!((remote.req.request_id.as_str(), remote.client_pubkey.as_str()), ("id", "key"));
}

#[test]
fn receipts_are_priced_and_signed() {
    let r = issued("one");
    assert_eq!(r.receipt_id, "one");
    assert_eq!(r.amount_nano, NANO_PER_ITOKEN);
    assert_eq!(r.query_hash, sha256_hash("why?"));
    assert_eq!((r.timestamp, r.tokens_generated), (NOW, 100));
    assert!(r.client_signature.is_none());
    assert!(!verify_receipt_signatures(&r));
    let mut both = r.clone();
    countersign(&mut both, &client_key());
    assert!(verify_receipt_signatures(&both));
    let fresh = issue_receipt(&work(), NOW, &node_key());
    assert_eq!(fresh.receipt_id.len(), 36);
    assert_ne!(fresh_id(), fresh_id());
}

#[test]
fn receipts_are_reviewed() {
    let r = issued("one");
    assert_eq!(review_receipt(&r, bits(25.0)), None);
    assert_eq!(review_receipt(&r, bits(31.25)), None);
    let outside = Some("Receipt pricing/TPS is outside local client tolerance".to_string());
    assert_eq!(review_receipt(&r, bits(31.3)), outside);
    assert_eq!(review_receipt(&r, bits(20.8)), outside);
    assert_eq!(review_receipt(&r, bits(20.9)), None);
    let wrong = InferenceReceipt { amount_nano: 1, ..r };
    assert_eq!(
        review_receipt(&wrong, bits(25.0)),
        Some("Receipt claimed amount is mathematically incorrect".to_string())
    );
}

#[test]
fn a_good_reply_is_paid() {
    let (mut l, mut m) = (ledger(), db());
    let clock = Ok(NOW + 5);
    let (text, receipt) =
        settle_remote_at(&mut l, &mut m, "peer", reply(issued("one")), bits(25.0), &client_key(), &clock)
            .unwrap();
    assert_eq!(text, "answer");
    assert!(verify_receipt_signatures(&receipt));
    assert_eq!(l.get_balance(&hex(&client_key())), 4 * NANO_PER_ITOKEN);
    assert_eq!(l.get_balance(&hex(&node_key())), NANO_PER_ITOKEN);
    let h = m.records().get("peer").unwrap();
    assert_eq!((h.successes, h.failures, h.total_tokens_generated), (1, 0, 100));
    assert_eq!((f64::from_bits(h.total_latency_secs), h.last_seen), (1.0, NOW + 5));
    let again =
        settle_remote_at(&mut l, &mut m, "peer", reply(issued("one")), bits(25.0), &client_key(), &clock)
            .unwrap_err();
    assert_eq!(again.status, 500);
    assert_eq!(again.message, "Ledger verification error: Receipt has already been claimed");
    assert_eq!(m.records().get("peer").unwrap().failures, 1);
}

#[test]
fn bad_replies_are_refused() {
    let replies = vec![
        (
            reply(InferenceReceipt { network_median_tps: bits(99.0), ..issued("a") }),
            400,
            "Receipt pricing/TPS is outside local client tolerance",
        ),
        (
            reply(InferenceReceipt { amount_nano: 7, ..issued("a") }),
            400,
            "Receipt claimed amount is mathematically incorrect",
        ),
        (
            Ok(answer_sync(&ledger())),
            500,
            "Unexpected LedgerSync response",
        ),
        (Ok(P2PResponse::Error("no".to_string())), 500, "Remote peer error: no"),
        (Err("gone".to_string()), 500, "P2P routing error: gone"),
    ];
    for (r, status, words) in replies {
        let (mut l, mut m) = (ledger(), db());
        let refusal =
            settle_remote_at(&mut l, &mut m, "peer", r, bits(25.0), &client_key(), &Ok(NOW))
                .unwrap_err();
        assert_eq!((refusal.status, refusal.message.as_str()), (status, words));
        assert_eq!(m.records().get("peer").unwrap().failures, 1);
        assert_eq!(l.get_balance(&hex(&client_key())), 5 * NANO_PER_ITOKEN);
    }
    assert_eq!(charged_tokens(&reply(issued("a"))), 100);
    assert_eq!(charged_tokens(&Err("x".to_string())), 0);
    let local = refuse_local("no engine");
    assert_eq!((local.status, local.message.as_str()), (500, "Local inference failed: no engine"));
}

#[test]
fn replies_are_settled_by_the_clock_of_the_machine() {
    let (mut l, mut m) = (ledger(), db());
    let refusal =
        settle_remote(&mut l, &mut m, "peer", reply(issued("a")), bits(25.0), &client_key())
            .unwrap_err();
    assert!(refusal.message.starts_with("Ledger verification error: Receipt has expired (age: "));
}

#[test]
fn local_work_is_settled() {
    let (mut l, mut m) = (ledger(), db());
    let (receipt, claimed) = settle_local_at(
        &mut l,
        &mut m,
        &work(),
        "one".to_string(),
        bits(4.0),
        &node_key(),
        &client_key(),
        NOW,
    );
    assert_eq!(claimed, Ok(()));
    assert!(verify_receipt_signatures(&receipt));
    assert_eq!(l.get_balance(&hex(&node_key())), NANO_PER_ITOKEN);
    let h = m.records().get(&hex(&node_key())).unwrap();
    assert_eq!((h.successes, f64::from_bits(h.total_latency_secs)), (1, 4.0));
    let (_, poor) = settle_local_at(
        &mut LocalLedger::new("x", None),
        &mut m,
        &work(),
        "two".to_string(),
        bits(4.0),
        &node_key(),
        &client_key(),
        NOW,
    );
    assert_eq!(poor.unwrap_err(), "Client has insufficient balance: 0 < 1");
}

#[test]
fn the_demonstration_counts_paid_work_alone() {
    let (mut l, mut m) = (ledger(), db());
    let node = hex(&node_key());
    let (_, poor) = settle_demo_at(
        &mut LocalLedger::new("x", None),
        &mut m,
        &work(),
        "one".to_string(),
        bits(4.0),
        &node_key(),
        &client_key(),
        NOW,
    );
    assert_eq!(poor.unwrap_err(), "Client has insufficient balance: 0 < 1");
    assert!(m.records().get(&node).is_none());
    let (receipt, claimed) = settle_demo_at(
        &mut l,
        &mut m,
        &work(),
        "two".to_string(),
        bits(4.0),
        &node_key(),
        &client_key(),
        NOW,
    );
    assert_eq!(claimed, Ok(()));
    assert!(verify_receipt_signatures(&receipt));
    assert_eq!(l.get_balance(&node), NANO_PER_ITOKEN);
    assert_eq!(m.records().get(&node).unwrap().successes, 1);
}

#[test]
fn queries_of_other_nodes() {
    let q = chat_query(Some("p".to_string()), None, None, None, None);
    let mut req = open_request_as(&q, "id".to_string(), "0").unwrap();
    assert!(refuse_query(&req, "0").is_none());
    req.prompt = String::new();
    match refuse_query(&req, "0") {
        Some(P2PResponse::Error(words)) => {
            assert_eq!(words, "Validation failed: Prompt cannot be empty")
        }
        other => panic!("{:?}", other),
    }
    match answer_query("text".to_string(), &work(), NOW, &node_key()) {
        P2PResponse::InferenceSuccess { text, receipt } => {
            assert_eq!(text, "text");
            assert_eq!(review_receipt(&receipt, bits(25.0)), None);
        }
        other => panic!("{:?}", other),
    }
}

fn engine(url: &str, models: Vec<(&str, u64)>) -> DetectedEngine {
    DetectedEngine {
        name: "e".to_string(),
        url: url.to_string(),
        active_models: models
            .into_iter()
            .map(|(n, w)| ModelSpec {
                name: n.to_string(),
                tqw_nano: w,
                parameters: "8B".to_string(),
            })
            .collect(),
    }
}

#[test]
fn backends_and_models() {
    let none = choose_backend(&vec![]);
    assert!(none.is_mock());
    assert_eq!((none.url.as_str(), none.tqw_nano), (MOCK_BACKEND, 10_000_000));
    let engines = vec![engine("u", vec![("a", 5), ("b", 6)]), engine("v", vec![("c", 7)])];
    let first = choose_backend(&engines);
    assert!(!first.is_mock());
    assert_eq!((first.url.as_str(), first.tqw_nano), ("u", 5));
    let empty = vec![engine("w", vec![])];
    assert_eq!(choose_backend(&empty).tqw_nano, 10_000_000);
    assert_eq!(choose_backend(&empty).url, "w");
    assert_eq!(hosted_models(&engines), vec!["a", "b", "c"]);
    assert_eq!(hosted_models(&empty), vec!["mock-llama3-8b"]);
    let (backend, model) = choose_demo(&engines);
    assert_eq!((backend.url.as_str(), model.as_str(), backend.tqw_nano), ("u", "a", 5));
    let (backend, model) = choose_demo(&empty);
    assert_eq!((backend.url.as_str(), model.as_str()), (MOCK_BACKEND, MOCK_MODEL));
    let demo = demo_request("id".to_string(), model);
    assert_eq!(demo.prompt, "Explain Rayleigh scattering in one simple sentence.");
    assert_eq!(demo.max_tokens, Some(50));
    assert!(demo.validate().is_ok());
}

#[test]
fn seeds_are_whole_nano_itokens() {
    for x in vec![100.0f64, 0.1, 1.5, 1e-10, -3.0, f64::NAN, 1e30, 0.123456789] {
        assert_eq!(seed_nano(bits(x)), (x * 1_000_000_000u64 as f64) as u64);
    }
}

#[test]
fn ledgers_are_taken_over() {
    let mut task = SyncTask::new();
    assert_eq!(task.begin(false, false), SyncStep::Wait);
    assert_eq!(task.begin(false, true), SyncStep::Ask);
    let mut mine = LocalLedger::new("x", None);
    assert_eq!(task.finish(&mut mine, Err("x".to_string())), (SyncStep::Wait, false));
    assert_eq!(
        task.finish(&mut mine, Ok(P2PResponse::Error("x".to_string()))),
        (SyncStep::Wait, false)
    );
    let mut other = ledger();
    settle_local_at(
        &mut other,
        &mut db(),
        &work(),
        "one".to_string(),
        bits(1.0),
        &node_key(),
        &client_key(),
        NOW,
    );
    assert_eq!(task.finish(&mut mine, Ok(answer_sync(&other))), (SyncStep::Stop, true));
    assert_eq!(mine.get_balance(&hex(&node_key())), NANO_PER_ITOKEN);
    assert_eq!(task.begin(true, true), SyncStep::Stop);
    assert_eq!(task.begin(false, false), SyncStep::Wait);
    assert_eq!(task.begin(false, false), SyncStep::Stop);
    assert_eq!(task.attempts, 5);
    assert_eq!(task.finish(&mut mine, Err("x".to_string())), (SyncStep::Stop, false));
}

#[test]
fn answers_to_the_user() {
    let q = chat_query(Some("two words".to_string()), Some("m".to_string()), None, None, None);
    let req = open_request_as(&q, "id".to_string(), "0").unwrap();
    let c = complete_chat(&req, "text".to_string(), 5, NOW);
    assert_eq!((c.id.as_str(), c.model.as_str(), c.content.as_str()), ("chatcmpl-id", "m", "text"));
    assert_eq!((c.prompt_tokens, c.completion_tokens, c.total_tokens), (2, 5, 7));
    assert_eq!(c.created, NOW);
}

#[test]
fn streamed_answers_carry_the_text() {
    for text in vec!["one two  three", "", " x ", "word"] {
        let chunks = stream_chat(text, "m", "id", NOW);
        let parts: Vec<String> = chunks.iter().filter_map(|c| c.content.clone()).collect();
        assert_eq!(parts.concat(), text);
        assert!(chunks[chunks.len() - 1].content.is_none());
        assert_eq!(parts.len() + 1, chunks.len());
        assert!(chunks.iter().all(|c| c.id == "chatcmpl-id" && c.model == "m" && c.created == NOW));
    }
    let words: Vec<Option<String>> =
        stream_chat("a b", "m", "id", 0).into_iter().map(|c| c.content).collect();
    assert_eq!(words, vec![Some("a ".to_string()), Some("b".to_string()), None]);
}
