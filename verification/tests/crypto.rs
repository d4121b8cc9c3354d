use itoken::crypto::{
    generate_keypair, get_receipt_signing_bytes, hex_to_pubkey, load_or_generate_keypair,
    pubkey_to_hex, sha256_hash, sign_bytes, sign_receipt_as_client, sign_receipt_as_node,
    verify_receipt_signatures, verify_signature, SigningKey,
};
use itoken::receipt::InferenceReceipt;

fn receipt(client: &str, node: &str) -> InferenceReceipt {
    InferenceReceipt {
        receipt_id: "test-123".to_string(),
        client_pubkey: client.to_string(),
        node_pubkey: node.to_string(),
        query_hash: sha256_hash("test query"),
        tokens_generated: 100,
        tps: 45.5f64.to_bits(),
        network_median_tps: 25.0f64.to_bits(),
        tqw_nano: 10_000_000,
        amount_nano: 500_000_000,
        timestamp: 1700000000,
        node_signature: None,
        client_signature: None,
    }
}

#[test]
fn test_keypair_roundtrip() {
    let (_, pub_key) = generate_keypair();
    let hex = pubkey_to_hex(&pub_key);
    let recovered = hex_to_pubkey(&hex).unwrap();
    assert_eq!(pub_key, recovered);
}

#[test]
fn test_sign_verify_message() {
    let (priv_key, pub_key) = generate_keypair();
    let msg = b"hello iToken";
    let sig = sign_bytes(&priv_key, msg);
    assert!(verify_signature(&pubkey_to_hex(&pub_key), msg, &sig));
}

#[test]
fn test_tampered_message_fails() {
    let (priv_key, pub_key) = generate_keypair();
    let msg = b"hello iToken";
    let sig = sign_bytes(&priv_key, msg);
    assert!(!verify_signature(&pubkey_to_hex(&pub_key), b"tampered", &sig));
}

#[test]
fn test_receipt_sign_and_verify() {
    let (client_priv, client_pub) = generate_keypair();
    let (node_priv, node_pub) = generate_keypair();
    let mut receipt = receipt(&pubkey_to_hex(&client_pub), &pubkey_to_hex(&node_pub));
    sign_receipt_as_node(&node_priv, &mut receipt);
    sign_receipt_as_client(&client_priv, &mut receipt);
    assert!(verify_receipt_signatures(&receipt));
}

#[test]
fn test_tampered_receipt_fails() {
    let (client_priv, client_pub) = generate_keypair();
    let (node_priv, node_pub) = generate_keypair();
    let mut receipt = InferenceReceipt {
        receipt_id: "test-456".to_string(),
        query_hash: sha256_hash("test"),
        tokens_generated: 50,
        tps: 30.0f64.to_bits(),
        amount_nano: 300_000_000,
        ..receipt(&pubkey_to_hex(&client_pub), &pubkey_to_hex(&node_pub))
    };
    sign_receipt_as_node(&node_priv, &mut receipt);
    sign_receipt_as_client(&client_priv, &mut receipt);
    receipt.amount_nano = 999_999_999;
    assert!(!verify_receipt_signatures(&receipt));
}

#[test]
fn test_signing_bytes_deterministic() {
    let receipt = InferenceReceipt {
        receipt_id: "det-test".to_string(),
        query_hash: "hash123".to_string(),
        tokens_generated: 42,
        tps: 33.33f64.to_bits(),
        amount_nano: 420_000_000,
        ..receipt("aabbcc", "ddeeff")
    };
    let b1 = get_receipt_signing_bytes(&receipt);
    let b2 = get_receipt_signing_bytes(&receipt);
    assert_eq!(b1, b2, "Signing bytes must be deterministic");
}

#[test]
fn test_key_persistence() {
    let (_, pub1, to_store) = load_or_generate_keypair("test_persist.key", None).unwrap();
    let (_, pub2, again) = load_or_generate_keypair("test_persist.key", to_store).unwrap();
    assert_eq!(pub1, pub2, "Key must persist across loads");
    assert!(again.is_none());
}

#[test]
fn test_invalid_hex_pubkey() {
    assert!(hex_to_pubkey("not-valid-hex").is_err());
    assert!(hex_to_pubkey("aabb").is_err());
}

#[test]
fn test_sha256_hash_deterministic() {
    let h1 = sha256_hash("hello");
    let h2 = sha256_hash("hello");
    assert_eq!(h1, h2);
    assert_ne!(h1, sha256_hash("world"));
}

#[test]
fn sha256_of_known_texts() {
    assert_eq!(
        sha256_hash("hello"),
        "2cf24dba5fb0a30e26e83b2ac5b9e29e1b161e5c1fa7425e73043362938b9824"
    );
    assert_eq!(
        sha256_hash(""),
        "e3b0c44298fc1c149afbf4c8996fb92427ae41e4649b934ca495991b7852b855"
    );
}

#[test]
fn known_key_and_signature() {
    let key = SigningKey::from_bytes(&[
        0x9d, 0x61, 0xb1, 0x9d, 0xef, 0xfd, 0x5a, 0x60, 0xba, 0x84, 0x4a, 0xf4, 0x92, 0xec, 0x2c,
        0xc4, 0x44, 0x49, 0xc5, 0x69, 0x7b, 0x32, 0x69, 0x19, 0x70, 0x3b, 0xac, 0x03, 0x1c, 0xae,
        0x7f, 0x60,
    ]);
    let public = pubkey_to_hex(&key.verifying_key());
    assert_eq!(public, "d75a980182b10ab7d54bfed3c964073a0ee172f3daa62325af021a68f707511a");
    let signature = sign_bytes(&key, b"");
    assert_eq!(
        signature,
        "e5564300c360ac729086e2cc806e828a84877f1eb8e5d974d873e065224901555fb8821590a33bacc61e39701cf9b46bd25bf5f0595bbe24655141438e7a100b"
    );
    assert!(verify_signature(&public, b"", &signature));
    assert!(verify_signature(&public.to_uppercase(), b"", &signature.to_uppercase()));
    assert!(!verify_signature(&public, b"", &signature[2..]));
    assert!(!verify_signature(&public, b"", "zz"));
    assert!(!verify_signature("zz", b"", &signature));
}

#[test]
fn public_keys_are_refused_in_words() {
    assert_eq!(hex_to_pubkey("aabb").unwrap_err(), "Invalid public key length: 2 (expected 32)");
    assert_eq!(hex_to_pubkey("abc").unwrap_err(), "Invalid hex: Odd number of digits");
    assert_eq!(
        hex_to_pubkey("zz").unwrap_err(),
        "Invalid hex: Invalid character 'z' at position 0"
    );
    let no_point = format!("02{}", "00".repeat(31));
    assert_eq!(
        hex_to_pubkey(&no_point).unwrap_err(),
        "Invalid public key: signature error: Cannot decompress Edwards point"
    );
}

#[test]
fn stored_keys_of_another_length_are_refused() {
    let err = match load_or_generate_keypair("some.key", Some(vec![1, 2, 3])) {
        Ok(_) => panic!("a key of three bytes"),
        Err(e) => e,
    };
    assert!(err.contains("some.key"));
    let (key, public, store) = load_or_generate_keypair("some.key", Some(vec![7; 32])).unwrap();
    assert_eq!(key.to_bytes(), [7; 32]);
    assert_eq!(public, SigningKey::from_bytes(&[7; 32]).verifying_key());
    assert!(store.is_none());
}

#[test]
fn every_signed_field_counts() {
    let base = receipt("aa", "bb");
    let bytes = get_receipt_signing_bytes(&base);
    let altered = vec![
        InferenceReceipt { receipt_id: "x".to_string(), ..base.clone() },
        InferenceReceipt { client_pubkey: "ab".to_string(), ..base.clone() },
        InferenceReceipt { node_pubkey: "bc".to_string(), ..base.clone() },
        InferenceReceipt { query_hash: "h".to_string(), ..base.clone() },
        InferenceReceipt { tokens_generated: 101, ..base.clone() },
        InferenceReceipt { tps: 45.6f64.to_bits(), ..base.clone() },
        InferenceReceipt { network_median_tps: 26.0f64.to_bits(), ..base.clone() },
        InferenceReceipt { tqw_nano: 1, ..base.clone() },
        InferenceReceipt { amount_nano: 1, ..base.clone() },
        InferenceReceipt { timestamp: 1, ..base.clone() },
    ];
    for r in altered {
        assert_ne!(get_receipt_signing_bytes(&r), bytes);
    }
    let signed = InferenceReceipt { node_signature: Some("s".to_string()), ..base.clone() };
    assert_eq!(get_receipt_signing_bytes(&signed), bytes);
    let moved = InferenceReceipt {
        client_pubkey: "a".to_string(),
        node_pubkey: "abb".to_string(),
        ..base.clone()
    };
    assert_ne!(get_receipt_signing_bytes(&moved), bytes);
}

#[test]
fn receipts_need_both_signatures_of_the_right_keys() {
    let (client_priv, client_pub) = generate_keypair();
    let (node_priv, node_pub) = generate_keypair();
    let mut r = receipt(&pubkey_to_hex(&client_pub), &pubkey_to_hex(&node_pub));
    assert!(!verify_receipt_signatures(&r));
    sign_receipt_as_client(&client_priv, &mut r);
    assert!(!verify_receipt_signatures(&r));
    sign_receipt_as_node(&client_priv, &mut r);
    assert!(!verify_receipt_signatures(&r));
    sign_receipt_as_node(&node_priv, &mut r);
    assert!(verify_receipt_signatures(&r));
}
