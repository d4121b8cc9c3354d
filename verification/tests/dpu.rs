use itoken::crypto::{pubkey_to_hex, SigningKey};
use itoken::dpu::{
    completion_request, estimate_token_count, failing_backend, get_receipt_signing_bytes,
    hex_to_pubkey, sign_receipt_as_client, sign_receipt_as_node, unreachable_backend,
    verify_receipt_signatures, ClaimError, InferenceReceipt, LocalLedger, ReceiptDigits,
};
use itoken::request::InferenceRequest;

fn bits(x: f64) -> u64 {
    x.to_bits()
}

fn hex(key: &SigningKey) -> String {
    pubkey_to_hex(&key.verifying_key())
}

fn keys() -> (SigningKey, SigningKey) {
    (SigningKey::from_bytes(&[5; 32]), SigningKey::from_bytes(&[6; 32]))
}

fn receipt() -> InferenceReceipt {
    let (client, node) = keys();
    InferenceReceipt {
        receipt_id: "r".to_string(),
        client_pubkey: hex(&client),
        node_pubkey: hex(&node),
        query_hash: "h".to_string(),
        tokens_generated: 100,
        tps: bits(50.0),
        tqw: bits(0.01),
        amount_itokens: 0,
        timestamp: 17,
        node_signature: None,
        client_signature: None,
    }
}

fn digits(r: &InferenceReceipt) -> ReceiptDigits {
    ReceiptDigits {
        tps: format!("{:.4}", f64::from_bits(r.tps)),
        tqw: format!("{:.4}", f64::from_bits(r.tqw)),
        amount: format!("{:.4}", f64::from_bits(r.amount_itokens)),
    }
}

fn power(r: &InferenceReceipt) -> u64 {
    bits(f64::from_bits(r.speed_ratio()).powf(0.75))
}

fn signed() -> InferenceReceipt {
    let (client, node) = keys();
    let mut r = receipt();
    r.amount_itokens = r.compute_amount(power(&r));
    let d = digits(&r);
    sign_receipt_as_node(&node, &mut r, &d);
    sign_receipt_as_client(&client, &mut r, &d);
    r
}

#[test]
fn tokens_of_words_and_marks() {
    assert_eq!(estimate_token_count(""), 0);
    assert_eq!(estimate_token_count("  "), 1);
    assert_eq!(estimate_token_count("hello world"), 2);
    assert_eq!(estimate_token_count("hello, world!! (x)"), 5);
    assert_eq!(estimate_token_count("a; b? c. d:"), 7);
    assert_eq!(estimate_token_count(" hello,  world!!\n(x) \ta; b? c. d: "), 12);
}

#[test]
fn amounts_are_those_of_the_machine() {
    let r = receipt();
    let expected = 100f64 * 0.01 * (50.0f64 / 25.0).powf(0.75).max(0.1).min(3.0);
    assert_eq!(f64::from_bits(r.compute_amount(power(&r))), expected);
    assert_eq!(f64::from_bits(r.tps_multiplier(bits(0.01))), 0.1);
    assert_eq!(f64::from_bits(r.tps_multiplier(bits(7.0))), 3.0);
    assert_eq!(f64::from_bits(r.tps_multiplier(bits(f64::NAN))), 0.1);
    assert_eq!(f64::from_bits(r.tps_multiplier(bits(1.25))), 1.25);
}

#[test]
fn the_signed_text_lists_the_fields() {
    let r = receipt();
    let d = digits(&r);
    let expected = format!(
        "r:{}:{}:h:100:50.0000:0.0100:0.0000:17",
        r.client_pubkey, r.node_pubkey
    );
    assert_eq!(get_receipt_signing_bytes(&r, &d), expected.into_bytes());
}

#[test]
fn signatures_are_checked() {
    let mut r = signed();
    let d = digits(&r);
    assert!(verify_receipt_signatures(&r, &d));
    r.timestamp = 18;
    assert!(!verify_receipt_signatures(&r, &d));
}

#[test]
fn public_keys() {
    let (client, _) = keys();
    assert_eq!(hex_to_pubkey(&hex(&client)).unwrap(), client.verifying_key());
    assert_eq!(hex_to_pubkey("aabb").unwrap_err(), "Invalid public key length");
    assert_eq!(hex_to_pubkey("abc").unwrap_err(), "Odd number of digits");
    assert!(hex_to_pubkey(&format!("02{}", "00".repeat(31))).is_err());
}

#[test]
fn requests_are_not_validated() {
    let req = InferenceRequest {
        request_id: "".to_string(),
        prompt: "".to_string(),
        model: "m".to_string(),
        max_tokens: None,
        temperature: 0,
    };
    let c = completion_request("http://h", &req);
    assert_eq!(c.endpoint, "http://h/v1/chat/completions");
    assert!(c.stream);
    assert_eq!(unreachable_backend("x"), "Failed to connect to local LLM backend: x");
    assert_eq!(failing_backend("x"), "Local LLM backend returned error: x");
}

#[test]
fn transfers_in_double_precision() {
    let mut l = LocalLedger::new("f", None);
    l.register_account("a", bits(1.5));
    l.register_account("a", bits(9.0));
    assert!(l.transfer("a", "b", bits(0.5)).is_ok());
    assert_eq!(f64::from_bits(l.get_balance("a")), 1.0);
    assert_eq!(f64::from_bits(l.get_balance("b")), 0.5);
    assert_eq!(l.transfer("b", "a", bits(0.6)).unwrap_err(), "Insufficient iToken balance");
    assert!(l.transfer("a", "a", bits(0.25)).is_ok());
    assert_eq!(f64::from_bits(l.get_balance("a")), 1.0);
    assert_eq!(l.get_balance("nobody"), 0);
}

#[test]
fn claims_in_double_precision() {
    let (client, node) = keys();
    let r = signed();
    let d = digits(&r);
    let p = power(&r);
    let mut l = LocalLedger::new("f", None);
    assert_eq!(l.claim_receipt(&r, &d, p), Err(ClaimError::InsufficientBalance));
    l.register_account(&hex(&client), bits(100.0));
    let mut unsigned = r.clone();
    unsigned.client_signature = None;
    assert_eq!(l.claim_receipt(&unsigned, &d, p), Err(ClaimError::InvalidSignatures));
    let expected = r.compute_amount(bits(1.0));
    assert_eq!(
        l.claim_receipt(&r, &d, bits(1.0)),
        Err(ClaimError::AmountMismatch(expected, r.amount_itokens))
    );
    assert_eq!(l.claim_receipt(&r, &d, p), Ok(()));
    assert_eq!(f64::from_bits(l.get_balance(&hex(&node))), f64::from_bits(r.amount_itokens));
    assert_eq!(
        f64::from_bits(l.get_balance(&hex(&client))),
        100.0 - f64::from_bits(r.amount_itokens)
    );
    assert_eq!(l.claim_receipt(&r, &d, p), Err(ClaimError::AlreadyClaimed));
}

#[test]
fn refused_claims_in_words() {
    assert_eq!(ClaimError::AlreadyClaimed.message("", ""), "Receipt has already been claimed");
    assert_eq!(ClaimError::InvalidSignatures.message("", ""), "Invalid receipt signatures");
    assert_eq!(
        ClaimError::AmountMismatch(1, 2).message("1.5", "2.5"),
        "Receipt amount mismatch. Expected: 1.5, Got: 2.5"
    );
    assert_eq!(
        ClaimError::InsufficientBalance.message("", ""),
        "Client has insufficient balance to pay receipt"
    );
}
