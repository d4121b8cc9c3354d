use itoken::amount::NANO_PER_ITOKEN;
use itoken::crypto::{
    pubkey_to_hex, sign_receipt_as_client, sign_receipt_as_node, SigningKey,
};
use itoken::ledger::{LedgerState, LocalLedger};
use itoken::receipt::InferenceReceipt;
use itoken::table::{Table, TextSet};

fn temp_ledger() -> LocalLedger {
    LocalLedger::new("ledger.json", None)
}

fn keys() -> (SigningKey, SigningKey) {
    (SigningKey::from_bytes(&[1; 32]), SigningKey::from_bytes(&[2; 32]))
}

fn hex(key: &SigningKey) -> String {
    pubkey_to_hex(&key.verifying_key())
}

fn signed_receipt(id: &str, timestamp: u64) -> InferenceReceipt {
    let (client, node) = keys();
    let mut r = InferenceReceipt {
        receipt_id: id.to_string(),
        client_pubkey: hex(&client),
        node_pubkey: hex(&node),
        query_hash: "h".to_string(),
        tokens_generated: 100,
        tps: 25.0f64.to_bits(),
        network_median_tps: 25.0f64.to_bits(),
        tqw_nano: 10_000_000,
        amount_nano: 0,
        timestamp,
        node_signature: None,
        client_signature: None,
    };
    r.amount_nano = r.compute_amount();
    sign(&mut r);
    r
}

fn sign(r: &mut InferenceReceipt) {
    let (client, node) = keys();
    sign_receipt_as_node(&node, r);
    sign_receipt_as_client(&client, r);
}

fn funded() -> LocalLedger {
    let (client, node) = keys();
    let mut ledger = temp_ledger();
    ledger.register_account(&hex(&client), 10 * NANO_PER_ITOKEN);
    ledger.register_account(&hex(&node), 0);
    ledger
}

#[test]
fn test_register_and_balance() {
    let mut ledger = temp_ledger();
    ledger.register_account("alice", 100 * NANO_PER_ITOKEN);
    assert_eq!(ledger.get_balance("alice"), 100 * NANO_PER_ITOKEN);
    assert_eq!(ledger.get_balance("unknown"), 0);
}

#[test]
fn test_transfer_success() {
    let mut ledger = temp_ledger();
    ledger.register_account("alice", 100 * NANO_PER_ITOKEN);
    ledger.register_account("bob", 0);
    ledger.transfer("alice", "bob", 30 * NANO_PER_ITOKEN).unwrap();
    assert_eq!(ledger.get_balance("alice"), 70 * NANO_PER_ITOKEN);
    assert_eq!(ledger.get_balance("bob"), 30 * NANO_PER_ITOKEN);
}

#[test]
fn test_transfer_insufficient_balance() {
    let mut ledger = temp_ledger();
    ledger.register_account("alice", 10 * NANO_PER_ITOKEN);
    let result = ledger.transfer("alice", "bob", 50 * NANO_PER_ITOKEN);
    assert!(result.is_err());
    assert_eq!(ledger.get_balance("alice"), 10 * NANO_PER_ITOKEN);
    assert_eq!(result.unwrap_err(), "Insufficient balance: have 10 iTokens, need 50");
}

#[test]
fn test_transfer_zero_rejected() {
    let mut ledger = temp_ledger();
    ledger.register_account("alice", 10 * NANO_PER_ITOKEN);
    let result = ledger.transfer("alice", "bob", 0);
    assert!(result.is_err());
    assert_eq!(result.unwrap_err(), "Transfer amount must be positive");
}

#[test]
fn transfer_to_a_full_account_is_refused() {
    let mut ledger = temp_ledger();
    ledger.register_account("alice", 5);
    ledger.register_account("bob", u64::MAX - 4);
    assert_eq!(ledger.transfer("alice", "bob", 5).unwrap_err(), "Receiver balance overflow");
    assert_eq!(ledger.get_balance("alice"), 5);
    assert!(ledger.transfer("alice", "bob", 4).is_ok());
    assert_eq!(ledger.get_balance("bob"), u64::MAX);
}

#[test]
fn transfer_to_oneself_keeps_the_balance() {
    let mut ledger = temp_ledger();
    ledger.register_account("alice", 100);
    assert!(ledger.transfer("alice", "alice", 30).is_ok());
    assert_eq!(ledger.get_balance("alice"), 100);
    assert!(ledger.transfer("alice", "alice", 101).is_err());
    ledger.register_account("bob", u64::MAX);
    assert!(ledger.transfer("bob", "bob", u64::MAX).is_ok());
    assert_eq!(ledger.get_balance("bob"), u64::MAX);
}

#[test]
fn registration_happens_once() {
    let mut ledger = temp_ledger();
    ledger.register_account("alice", 10);
    ledger.register_account("alice", 99);
    assert_eq!(ledger.get_balance("alice"), 10);
    assert_eq!(ledger.file_path(), "ledger.json");
}

#[test]
fn a_receipt_is_paid_once() {
    let (client, node) = keys();
    let mut ledger = funded();
    let r = signed_receipt("one", 1_000);
    assert_eq!(ledger.claim_receipt_at(&r, &Ok(1_000)), Ok(()));
    assert_eq!(ledger.get_balance(&hex(&client)), 9 * NANO_PER_ITOKEN);
    assert_eq!(ledger.get_balance(&hex(&node)), NANO_PER_ITOKEN);
    let again = "Receipt has already been claimed";
    assert_eq!(ledger.claim_receipt_at(&r, &Ok(1_000)).unwrap_err(), again);
    assert_eq!(ledger.claim_gossip_receipt(&r).unwrap_err(), again);
    assert_eq!(ledger.claim_receipt(&r).unwrap_err(), again);
    assert_eq!(ledger.get_balance(&hex(&node)), NANO_PER_ITOKEN);
}

#[test]
fn a_receipt_to_oneself_keeps_the_balance() {
    let (client, _) = keys();
    let mut ledger = funded();
    let mut r = signed_receipt("one", 1_000);
    r.node_pubkey = hex(&client);
    sign_receipt_as_node(&client, &mut r);
    sign_receipt_as_client(&client, &mut r);
    assert_eq!(ledger.claim_receipt_at(&r, &Ok(1_000)), Ok(()));
    assert_eq!(ledger.get_balance(&hex(&client)), 10 * NANO_PER_ITOKEN);
    assert!(ledger.claim_gossip_receipt(&r).is_err());
}

#[test]
fn receipts_are_claimed_in_time() {
    let r = signed_receipt("one", 1_000);
    let late = funded().claim_receipt_at(&r, &Ok(1_301)).unwrap_err();
    assert_eq!(late, "Receipt has expired (age: 301s, max: 300s)");
    assert!(funded().claim_receipt_at(&r, &Ok(1_300)).is_ok());
    let early = funded().claim_receipt_at(&r, &Ok(969)).unwrap_err();
    assert_eq!(early, "Receipt timestamp is in the future");
    assert!(funded().claim_receipt_at(&r, &Ok(970)).is_ok());
    let old = funded().claim_receipt(&r).unwrap_err();
    assert!(old.starts_with("Receipt has expired (age: "));
    let broken = Err("clock is off".to_string());
    assert_eq!(
        funded().claim_receipt_at(&r, &broken).unwrap_err(),
        "System clock error: clock is off"
    );
}

#[test]
fn receipts_need_signatures_amount_and_cover() {
    let mut r = signed_receipt("one", 1_000);
    r.node_signature = None;
    assert_eq!(
        funded().claim_receipt_at(&r, &Ok(1_000)).unwrap_err(),
        "Invalid receipt signatures"
    );
    assert_eq!(funded().claim_gossip_receipt(&r).unwrap_err(), "Invalid receipt signatures");
    r.amount_nano = 5;
    sign(&mut r);
    assert_eq!(
        funded().claim_receipt_at(&r, &Ok(1_000)).unwrap_err(),
        "Receipt amount mismatch: expected 1000000000 nano, got 5 nano"
    );
    assert!(funded().claim_gossip_receipt(&r).is_ok());
    let good = signed_receipt("one", 1_000);
    assert_eq!(
        temp_ledger().claim_receipt_at(&good, &Ok(1_000)).unwrap_err(),
        "Client has insufficient balance: 0 < 1"
    );
    let (client, node) = keys();
    let mut full = temp_ledger();
    full.register_account(&hex(&client), 10 * NANO_PER_ITOKEN);
    full.register_account(&hex(&node), u64::MAX);
    assert_eq!(full.claim_gossip_receipt(&good).unwrap_err(), "Node balance overflow");
}

#[test]
fn gossip_does_not_look_at_the_clock() {
    let (_, node) = keys();
    let mut ledger = funded();
    assert!(ledger.claim_gossip_receipt(&signed_receipt("old", 1)).is_ok());
    assert_eq!(ledger.get_balance(&hex(&node)), NANO_PER_ITOKEN);
}

#[test]
fn an_exported_ledger_can_be_imported() {
    let mut source = funded();
    let r = signed_receipt("one", 1_000);
    source.claim_gossip_receipt(&r).unwrap();
    let state = source.export_state();
    let mut target = temp_ledger();
    target.register_account("carol", 3);
    assert!(target.import_state(&state));
    assert!(!target.import_state(&state));
    assert_eq!(target.get_balance("carol"), 3);
    let (client, node) = keys();
    assert_eq!(target.get_balance(&hex(&client)), 9 * NANO_PER_ITOKEN);
    assert_eq!(target.get_balance(&hex(&node)), NANO_PER_ITOKEN);
    assert!(target.claim_gossip_receipt(&r).is_err());
}

#[test]
fn imported_balances_replace_without_new_claims() {
    let mut ledger = temp_ledger();
    ledger.register_account("alice", 1);
    let mut balances: Table<u64> = Table::new();
    balances.insert("alice".to_string(), 7);
    let state = LedgerState { balances, claimed_receipts: TextSet::new() };
    assert!(!ledger.import_state(&state));
    assert_eq!(ledger.get_balance("alice"), 7);
    let stored = LocalLedger::new("x", Some(ledger.export_state()));
    assert_eq!(stored.get_balance("alice"), 7);
    assert_eq!(stored.state().balances.len(), 1);
}

#[test]
fn claims_keep_the_sum_of_balances() {
    let (client, node) = keys();
    let mut ledger = funded();
    for i in 0..12 {
        let _ = ledger.claim_gossip_receipt(&signed_receipt(&format!("r{}", i % 11), 5));
        let total = ledger.get_balance(&hex(&client)) + ledger.get_balance(&hex(&node));
        assert_eq!(total, 10 * NANO_PER_ITOKEN);
    }
    assert_eq!(ledger.get_balance(&hex(&client)), 0);
}

#[test]
fn tables_hold_what_is_put_in() {
    let mut t: Table<u64> = Table::new();
    t.insert("a".to_string(), 1);
    t.insert("b".to_string(), 2);
    t.insert("a".to_string(), 3);
    assert_eq!(t.len(), 2);
    assert_eq!(t.get("a"), Some(&3));
    assert_eq!((t.key(1).as_str(), *t.value(1)), ("b", 2));
    t.remove("a");
    t.remove("zzz");
    assert!(!t.contains_key("a") && t.contains_key("b"));
    t.insert("c".to_string(), 5);
    t.remove_all(&vec!["b".to_string(), "x".to_string()]);
    assert_eq!(t.len(), 1);
    assert_eq!(t.duplicate().get("c"), Some(&5));
    let mut s = TextSet::new();
    s.insert("x".to_string());
    s.insert("x".to_string());
    assert_eq!(s.len(), 1);
    assert_eq!(s.item(0).as_str(), "x");
    s.remove("x");
    assert!(!s.contains("x"));
}

#[test]
fn receipts_may_be_heard_in_any_order() {
    let (a, b) = (signed_receipt("a", 1), signed_receipt("b", 2));
    let (mut one, mut two) = (funded(), funded());
    one.claim_gossip_receipt(&a).unwrap();
    one.claim_gossip_receipt(&b).unwrap();
    two.claim_gossip_receipt(&b).unwrap();
    two.claim_gossip_receipt(&a).unwrap();
    let (client, node) = keys();
    for who in vec![hex(&client), hex(&node)] {
        assert_eq!(one.get_balance(&who), two.get_balance(&who));
    }
    assert!(one.claim_gossip_receipt(&a).is_err() && two.claim_gossip_receipt(&a).is_err());
}
