use itoken::amount::{format_itokens, parse_itokens};
use itoken::receipt::{integer_fourth_root, InferenceReceipt};
use itoken::request::{InferenceRequest, RequestError};
use itoken::wide::Wide;

fn receipt(tokens: usize, tps: f64, median: f64, tqw_nano: u64) -> InferenceReceipt {
    InferenceReceipt {
        receipt_id: "r".to_string(),
        client_pubkey: "c".to_string(),
        node_pubkey: "n".to_string(),
        query_hash: "h".to_string(),
        tokens_generated: tokens,
        tps: tps.to_bits(),
        network_median_tps: median.to_bits(),
        tqw_nano,
        amount_nano: 0,
        timestamp: 0,
        node_signature: None,
        client_signature: None,
    }
}

fn request(id: &str, prompt: &str, model: &str, max_tokens: Option<usize>, t: f32) -> InferenceRequest {
    InferenceRequest {
        request_id: id.to_string(),
        prompt: prompt.to_string(),
        model: model.to_string(),
        max_tokens,
        temperature: t.to_bits(),
    }
}

#[test]
fn test_format_itokens_whole() {
    assert_eq!(format_itokens(1_000_000_000), "1");
    assert_eq!(format_itokens(100_000_000_000), "100");
}

#[test]
fn test_format_itokens_fractional() {
    assert_eq!(format_itokens(1_500_000_000), "1.5");
    assert_eq!(format_itokens(123_456_789), "0.123456789");
    assert_eq!(format_itokens(10_000_000), "0.01");
}

#[test]
fn test_parse_itokens_roundtrip() {
    let values = vec![0, 1, 1_000_000_000, 1_500_000_000, 123_456_789];
    for v in values {
        let s = format_itokens(v);
        let parsed = parse_itokens(&s).unwrap();
        assert_eq!(v, parsed, "Roundtrip failed for {}", v);
    }
}

#[test]
fn test_parse_itokens_whole() {
    assert_eq!(parse_itokens("100").unwrap(), 100_000_000_000);
}

#[test]
fn format_and_parse_agree_at_the_edges() {
    for v in vec![u64::MAX, u64::MAX - 1, 999_999_999, 10, 100_000_001, 1 << 63] {
        assert_eq!(parse_itokens(&format_itokens(v)), Ok(v));
    }
    assert_eq!(format_itokens(u64::MAX), "18446744073.709551615");
    assert_eq!(format_itokens(0), "0");
}

#[test]
fn parse_itokens_tells_what_is_wrong() {
    let words = |s: &str| parse_itokens(s).unwrap_err();
    assert_eq!(words("1.2.3"), "Invalid amount format");
    assert_eq!(words("1.0000000001"), "Too many decimal places (max 9)");
    assert_eq!(words("18446744074"), "Amount overflow");
    assert_eq!(words("18446744073.709551616"), "Amount overflow");
    for s in vec!["", "x", "-1", "99999999999999999999", "+", "1 "] {
        let std_words = s.parse::<u64>().unwrap_err().to_string();
        assert_eq!(words(s), format!("Invalid amount: {}", std_words));
    }
    for s in vec!["x", "-5"] {
        let padded = format!("{:0<9}", s);
        let std_words = padded.parse::<u64>().unwrap_err().to_string();
        assert_eq!(words(&format!("1.{}", s)), format!("Invalid fraction: {}", std_words));
    }
    assert_eq!(parse_itokens("+5"), Ok(5_000_000_000));
    assert_eq!(parse_itokens("1."), Ok(1_000_000_000));
    assert_eq!(parse_itokens("0.5"), Ok(500_000_000));
}

#[test]
fn test_compute_amount_deterministic() {
    let r1 = receipt(100, 50.0, 25.0, 10_000_000);
    let a1 = r1.compute_amount();
    let a2 = r1.compute_amount();
    assert_eq!(a1, a2, "compute_amount must be deterministic");
    assert!(a1 > 0, "amount must be positive");
    assert_eq!(a1, 1_681_000_000);
}

#[test]
fn amounts_do_not_wrap() {
    assert_eq!(receipt(usize::MAX, 50.0, 25.0, u64::MAX).compute_amount(), u64::MAX);
    assert_eq!(receipt(1, 25.0, 25.0, u64::MAX).compute_amount(), u64::MAX);
    assert_eq!(receipt(1, 50.0, 25.0, u64::MAX).compute_amount(), u64::MAX);
    assert_eq!(receipt(usize::MAX, 0.0, 25.0, 10).compute_amount(), u64::MAX);
    assert_eq!(receipt(usize::MAX, 0.0, 25.0, 9).compute_amount(), 16602069666338596453);
    assert_eq!(receipt(1, 1.0, 1.0, 100_000_000_000_000_000).compute_amount(), 100_000_000_000_000_000);
    assert_eq!(receipt(0, 50.0, 25.0, 10_000_000).compute_amount(), 0);
    assert_eq!(receipt(10, 20.0, 20.0, 10_000_000).compute_amount(), 100_000_000);
}

#[test]
fn test_tps_multiplier_clamping() {
    let r = receipt(1, 0.1, 1000.0, 10_000_000);
    assert!(f64::from_bits(r.tps_multiplier()) >= 0.1);
    let r_fast = InferenceReceipt {
        tps: 100000.0f64.to_bits(),
        network_median_tps: 1.0f64.to_bits(),
        ..r.clone()
    };
    assert!(f64::from_bits(r_fast.tps_multiplier()) <= 3.0);
}

#[test]
fn test_integer_fourth_root() {
    assert_eq!(integer_fourth_root(0), 0);
    assert_eq!(integer_fourth_root(1), 1);
    assert_eq!(integer_fourth_root(15), 1);
    assert_eq!(integer_fourth_root(16), 2);
    assert_eq!(integer_fourth_root(80), 2);
    assert_eq!(integer_fourth_root(81), 3);
    assert_eq!(integer_fourth_root(8_000_000_000_000), 1681);
    assert_eq!(integer_fourth_root(u128::MAX), 30000);
}

#[test]
fn test_deterministic_multiplier_precision() {
    let r = receipt(100, 50.0, 25.0, 10_000_000);
    let mult = r.tps_multiplier_milli();
    assert_eq!(mult, 1681);
    let r_slow = InferenceReceipt { network_median_tps: 500.0f64.to_bits(), ..r.clone() };
    assert_eq!(r_slow.tps_multiplier_milli(), 177);
    let r_v_slow = InferenceReceipt { network_median_tps: 5000.0f64.to_bits(), ..r.clone() };
    assert_eq!(r_v_slow.tps_multiplier_milli(), 100);
    let r_fast = InferenceReceipt { network_median_tps: 0.5f64.to_bits(), ..r.clone() };
    assert_eq!(r_fast.tps_multiplier_milli(), 3000);
}

#[test]
fn multipliers_of_unusual_speeds() {
    assert_eq!(receipt(1, 25.0, 25.0, 1).tps_multiplier_milli(), 1000);
    assert_eq!(receipt(1, 1.0, 0.0, 1).tps_multiplier_milli(), 1000);
    assert_eq!(receipt(1, f64::NAN, 25.0, 1).tps_multiplier_milli(), 100);
    assert_eq!(receipt(1, -5.0, 25.0, 1).tps_multiplier_milli(), 100);
    assert_eq!(receipt(1, f64::INFINITY, 25.0, 1).tps_multiplier_milli(), 3000);
    assert_eq!(receipt(1, 25.0, f64::INFINITY, 1).tps_multiplier_milli(), 100);
    assert_eq!(receipt(1, f64::INFINITY, f64::INFINITY, 1).tps_multiplier_milli(), 1000);
    assert_eq!(receipt(1, 1e6, 1e6, 1).tps_multiplier_milli(), 1000);
    assert_eq!(receipt(1, 2e6, 1e6, 1).tps_multiplier_milli(), 1681);
    assert_eq!(receipt(1, 4e15, 2e15, 1).tps_multiplier_milli(), 1681);
    assert_eq!(receipt(1, 5e14, 1e16, 1).tps_multiplier_milli(), 105);
    assert_eq!(receipt(1, 1e16, 1e15, 1).tps_multiplier_milli(), 3000);
    assert_eq!(f64::from_bits(receipt(1, 50.0, 25.0, 1).tps_multiplier()), 1.681);
}

#[test]
fn multiplier_grows_with_speed_and_falls_with_the_median() {
    let mut last = 0;
    for i in 1..200u32 {
        let m = receipt(1, i as f64 * 0.7, 25.0, 1).tps_multiplier_milli();
        assert!(m >= last && m >= 100 && m <= 3000);
        last = m;
    }
    let mut last = 3000;
    for i in 1..200u32 {
        let m = receipt(1, 25.0, i as f64 * 0.7, 1).tps_multiplier_milli();
        assert!(m <= last);
        last = m;
    }
}

#[test]
fn test_validate_request_good() {
    assert!(request("test", "Hello", "llama3:8b", Some(100), 0.7).validate().is_ok());
}

#[test]
fn test_validate_request_empty_prompt() {
    assert!(request("test", "", "llama3:8b", None, 0.0).validate().is_err());
}

#[test]
fn test_validate_request_bad_temperature() {
    assert!(request("test", "hi", "llama3:8b", None, -1.0).validate().is_err());
}

#[test]
fn test_validate_request_oversized_max_tokens() {
    assert!(request("test", "hi", "llama3:8b", Some(999999), 0.0).validate().is_err());
}

#[test]
fn test_validate_request_bad_request_id() {
    assert!(request("", "hi", "llama3:8b", None, 0.7).validate().is_err());
    assert!(request(&"a".repeat(129), "hi", "llama3:8b", None, 0.7).validate().is_err());
}

#[test]
fn names_are_measured_in_characters() {
    let (id, model) = ("é".repeat(128), "é".repeat(256));
    assert!(request(&"é".repeat(100), "p", "m", None, 1.0).validate().is_ok());
    assert!(request(&id, "p", &model, None, 1.0).validate().is_ok());
    assert_eq!(
        request(&"é".repeat(129), "p", "m", None, 1.0).validate(),
        Err(RequestError::RequestId(129))
    );
    assert_eq!(
        request("id", "p", &"é".repeat(257), None, 1.0).validate(),
        Err(RequestError::ModelName)
    );
    assert_eq!(request("", "p", "m", None, 1.0).validate(), Err(RequestError::RequestId(0)));
}

#[test]
fn wide_products_and_quotients() {
    let top = Wide::from_digit(u64::MAX).times(u64::MAX).times(u64::MAX).times(u64::MAX);
    let less = Wide::from_digit(u64::MAX).times(u64::MAX).times(u64::MAX);
    assert_eq!(top.quotient_up_to(&less, u64::MAX), u64::MAX);
    assert_eq!(top.quotient_up_to(&less, 7), 7);
    assert_eq!(less.quotient_up_to(&top, 1), 0);
    assert!(less.is_at_most(&top) && !top.is_at_most(&less) && top.is_at_most(&top));
    let hundred = Wide::from_digit(100);
    assert_eq!(hundred.quotient_up_to(&Wide::from_digit(7), 1000), 14);
}

#[test]
fn requests_are_refused_with_their_first_fault() {
    let fault = |r: InferenceRequest| r.validate().unwrap_err();
    let long = fault(request(&"a".repeat(129), "", "", None, 9.0));
    assert_eq!(long, RequestError::RequestId(129));
    assert_eq!(long.message("9"), "Request ID must be 1-128 characters, got 129");
    let empty = fault(request("id", "", "", None, 9.0));
    assert_eq!(empty.message("9"), "Prompt cannot be empty");
    let large = fault(request("id", &"é".repeat(65537), "m", None, 0.0));
    assert_eq!(large.message("0"), "Prompt too large: 131074 bytes (max 131072)");
    let model = fault(request("id", "p", "", None, 9.0));
    assert_eq!(model.message("9"), "Model name must be 1-256 characters");
    let hot = fault(request("id", "p", "m", Some(0), 2.5));
    assert_eq!(hot.message("2.5"), "Temperature must be 0.0-2, got 2.5");
    let none = fault(request("id", "p", "m", Some(0), 2.0));
    assert_eq!(none.message("2"), "max_tokens must be 1-8192, got 0");
    assert!(request("id", &"x".repeat(131072), &"m".repeat(256), Some(8192), 2.0).validate().is_ok());
    assert!(request("id", "p", "m", None, -0.0).validate().is_ok());
    assert!(request("id", "p", "m", None, f32::NAN).validate().is_ok());
    assert!(request("id", "p", "m", None, f32::INFINITY).validate().is_err());
}
