use itoken::detector::{
    add_engine, custom_engine, default_target, estimate_tqw_nano, format_param_count,
    guess_params, parameter_count, params_to_tqw_nano, same_engines, Probe, ProbeAction,
    DEFAULT_TARGET_COUNT,
};
use itoken::proxy::{
    completion_request, content_of, content_of_event, failing_backend, meaning_of_line, speed_of,
    unreachable_backend, AnswerReader, Line,
};
use itoken::request::{InferenceRequest, ModelSpec};
use itoken::words::{
    estimate_token_count, is_ascii_punctuation, is_cjk, is_white_space, pieces_of, word_count,
    words_of,
};

#[test]
fn test_guess_params_various() {
    assert_eq!(guess_params("llama3-70b-instruct"), "70B");
    assert_eq!(guess_params("qwen2.5:32b"), "32B");
    assert_eq!(guess_params("mistral-7b"), "8B");
    assert_eq!(guess_params("phi-3-mini"), "8B");
}

#[test]
fn size_classes_of_other_names() {
    assert_eq!(guess_params("Qwen2-72B"), "70B");
    assert_eq!(guess_params("YI-34B"), "32B");
    assert_eq!(guess_params("Llama-2-13B"), "14B");
    assert_eq!(guess_params("PHI3:14B"), "14B");
    assert_eq!(guess_params("gemma:3b"), "3B");
    assert_eq!(guess_params("x-4B"), "3B");
    assert_eq!(guess_params(""), "8B");
    assert_eq!(guess_params("70"), "8B");
}

#[test]
fn test_estimate_tqw_scaling() {
    let tqw_8b = estimate_tqw_nano("llama3:8b");
    let tqw_70b = estimate_tqw_nano("llama3:70b");
    assert!(tqw_70b > tqw_8b, "Larger models should have higher TQW");
    assert_eq!((tqw_8b, tqw_70b), (10_000_000, 120_000_000));
    assert_eq!(estimate_tqw_nano("a:32b"), 60_000_000);
    assert_eq!(estimate_tqw_nano("a:13b"), 30_000_000);
    assert_eq!(estimate_tqw_nano("a:3b"), 10_000_000);
}

#[test]
fn test_params_to_tqw_nano() {
    let tqw_3b = params_to_tqw_nano(3_000_000_000);
    let tqw_8b = params_to_tqw_nano(8_000_000_000);
    let tqw_70b = params_to_tqw_nano(70_000_000_000);
    assert!(tqw_3b < tqw_8b);
    assert!(tqw_8b < tqw_70b);
}

#[test]
fn weights_at_the_edges() {
    for (billions, weight) in vec![
        (0, 5_000_000),
        (3, 5_000_000),
        (4, 10_000_000),
        (9, 10_000_000),
        (10, 30_000_000),
        (19, 30_000_000),
        (20, 60_000_000),
        (39, 60_000_000),
        (40, 120_000_000),
    ] {
        assert_eq!(params_to_tqw_nano(billions * 1_000_000_000 + 999_999_999), weight);
    }
    assert_eq!(params_to_tqw_nano(u64::MAX), 120_000_000);
}

#[test]
fn test_format_param_count() {
    assert_eq!(format_param_count(7_000_000_000), "7B");
    assert_eq!(format_param_count(500_000_000), "500M");
    assert_eq!(format_param_count(999_999), "0M");
}

#[test]
fn targets_of_a_scan() {
    let all: Vec<(&str, &str)> = (0..DEFAULT_TARGET_COUNT).map(default_target).collect();
    assert_eq!(
        all,
        vec![
            ("LM Studio", "http://localhost:1234"),
            ("Ollama", "http://localhost:11434"),
            ("llama.cpp", "http://localhost:8080"),
            ("Kobold.cpp", "http://localhost:5001"),
        ]
    );
}

fn fetched(p: &Probe) -> String {
    match p.action() {
        ProbeAction::Fetch(url) => url,
        other => panic!("{:?}", other),
    }
}

fn shown(p: &Probe) -> (String, String) {
    match p.action() {
        ProbeAction::Show(url, model) => (url, model),
        other => panic!("{:?}", other),
    }
}

#[test]
fn an_engine_with_the_common_interface() {
    let p = Probe::new("LM Studio", "http://h");
    assert_eq!(fetched(&p), "http://h/v1/models");
    let p = p.on_names(Some(vec!["llama3:70b".to_string(), "x".to_string()]));
    assert!(matches!(p.action(), ProbeAction::Stop));
    let models = p.result().unwrap();
    assert_eq!(models[0].name, "llama3:70b");
    assert_eq!(models[0].parameters, "70B");
    assert_eq!(models[0].tqw_nano, 120_000_000);
    assert_eq!(models[1].parameters, "8B");
    let p = Probe::new("LM Studio", "http://h").on_names(None);
    assert!(matches!(p.action(), ProbeAction::Stop));
    assert_eq!(p.result().unwrap_err(), "Engine not reachable or no models available");
}

#[test]
fn ollama_is_asked_about_each_model() {
    let p = Probe::new("Ollama", "http://h").on_names(None);
    assert_eq!(fetched(&p), "http://h/api/tags");
    let p = p.on_names(Some(vec!["a:70b".to_string(), "b".to_string()]));
    assert_eq!(shown(&p), ("http://h/api/show".to_string(), "a:70b".to_string()));
    let p = p.on_count(Some(8_000_000_000));
    assert_eq!(shown(&p).1, "a:70b");
    let p = p.on_count(None);
    assert_eq!(shown(&p).1, "b");
    let p = p.on_count(None).on_count(Some(500_000_000));
    let models = p.result().unwrap();
    assert_eq!((models[0].tqw_nano, models[0].parameters.as_str()), (10_000_000, "70B"));
    assert_eq!((models[1].tqw_nano, models[1].parameters.as_str()), (10_000_000, "500M"));
    let none = Probe::new("Ollama", "u").on_names(None).on_names(Some(vec![]));
    assert!(none.result().unwrap().is_empty());
    assert!(Probe::new("Ollama", "u").on_names(None).on_names(None).result().is_err());
}

#[test]
fn parameter_counts_are_read_from_model_information() {
    let info = Some("{\"general.parameter_count\": 8030261248, \"x\": 1}".to_string());
    assert_eq!(parameter_count(&info), Some(8030261248));
    assert_eq!(parameter_count(&Some("{\"general.parameter_count\": \"8\"}".to_string())), None);
    assert_eq!(parameter_count(&Some("{}".to_string())), None);
    assert_eq!(parameter_count(&None), None);
}

fn model(name: &str) -> ModelSpec {
    ModelSpec { name: name.to_string(), tqw_nano: 1, parameters: "8B".to_string() }
}

#[test]
fn engines_with_models_are_kept() {
    let mut engines = Vec::new();
    add_engine(&mut engines, "a", "u", Ok(vec![]));
    add_engine(&mut engines, "b", "u", Err("x".to_string()));
    add_engine(&mut engines, "c", "v", Ok(vec![model("m")]));
    assert_eq!(engines.len(), 1);
    assert_eq!((engines[0].name.as_str(), engines[0].url.as_str()), ("c", "v"));
    let copy = vec![engines[0].clone()];
    assert!(same_engines(&engines, &copy));
    let mut other = vec![engines[0].clone()];
    other[0].active_models[0].tqw_nano = 2;
    assert!(!same_engines(&engines, &other));
    assert!(!same_engines(&engines, &vec![]));
    let custom = custom_engine("w", Ok(vec![model("m")])).unwrap();
    assert_eq!((custom.name.as_str(), custom.url.as_str()), ("Custom", "w"));
    assert_eq!(custom_engine("w", Ok(vec![])).unwrap_err(), "No active models found at endpoint");
    assert_eq!(custom_engine("w", Err("e".to_string())).unwrap_err(), "e");
}

#[test]
fn test_estimate_token_count_english() {
    assert_eq!(estimate_token_count("hello world"), 2);
    assert_eq!(estimate_token_count("hello, world!"), 4);
}

#[test]
fn token_estimates_of_joined_texts_add_up() {
    let texts = vec!["hello, world!", "日本 ok", "a.b ((x))", "..."];
    for a in &texts {
        for b in &texts {
            let sum = estimate_token_count(a) + estimate_token_count(b);
            assert_eq!(estimate_token_count(&format!("{} {}", a, b)), sum);
            assert_eq!(estimate_token_count(&format!(" \t{}\u{3000}\n {} ", a, b)), sum);
        }
    }
}

#[test]
fn test_estimate_token_count_empty() {
    assert_eq!(estimate_token_count(""), 0);
}

#[test]
fn test_estimate_token_count_cjk() {
    let count = estimate_token_count("안녕하세요");
    assert!(count >= 5, "Korean characters should each count as a token");
    assert_eq!(count, 6);
}

#[test]
fn token_counts_of_other_texts() {
    assert_eq!(estimate_token_count("   "), 1);
    assert_eq!(estimate_token_count("..."), 4);
    assert_eq!(estimate_token_count("a.b ((x))"), 4);
    assert_eq!(estimate_token_count("日本 ok"), 4);
}

#[test]
fn test_is_cjk() {
    assert!(is_cjk('한'));
    assert!(is_cjk('字'));
    assert!(!is_cjk('A'));
    assert!(!is_cjk('1'));
    for c in vec!['\u{4DBF}', '\u{9FFF}', '\u{3040}', '\u{30FF}', '\u{D7AF}', '\u{3400}'] {
        assert!(is_cjk(c));
    }
    for c in vec!['\u{4DC0}', '\u{A000}', '\u{303F}', '\u{3100}', '\u{D7B0}', '\u{33FF}'] {
        assert!(!is_cjk(c));
    }
}

#[test]
fn characters_are_classed_as_by_std() {
    for n in 0..0x11_0000u32 {
        if let Some(c) = char::from_u32(n) {
            assert_eq!(is_white_space(c), c.is_whitespace(), "{:?}", c);
            assert_eq!(is_ascii_punctuation(c), c.is_ascii_punctuation(), "{:?}", c);
        }
    }
}

#[test]
fn words_and_pieces_as_by_std() {
    for s in vec!["", " ", "a b", "  a\tb\u{3000}c \n", "x  y ", "one", " lead", "é ü"] {
        let std_words: Vec<String> = s.split_whitespace().map(|w| w.to_string()).collect();
        assert_eq!(words_of(s), std_words);
        assert_eq!(word_count(s), std_words.len());
        let std_pieces: Vec<String> = s.split_inclusive(' ').map(|w| w.to_string()).collect();
        assert_eq!(pieces_of(s, ' '), std_pieces);
        assert_eq!(pieces_of(s, ' ').concat(), s);
    }
}

fn request(prompt: &str) -> InferenceRequest {
    InferenceRequest {
        request_id: "id".to_string(),
        prompt: prompt.to_string(),
        model: "m".to_string(),
        max_tokens: Some(5),
        temperature: 0.5f32.to_bits(),
    }
}

#[test]
fn requests_for_a_backend() {
    let c = completion_request("http://h", &request("hi"), "0.5").unwrap();
    assert_eq!(c.endpoint, "http://h/v1/chat/completions");
    assert_eq!((c.model.as_str(), c.role.as_str(), c.content.as_str()), ("m", "user", "hi"));
    assert_eq!((c.temperature, c.stream, c.max_tokens), (0.5f32.to_bits(), true, Some(5)));
    assert_eq!(
        completion_request("http://h", &request(""), "0.5").unwrap_err(),
        "Request validation failed: Prompt cannot be empty"
    );
    assert_eq!(
        unreachable_backend("http://h", "gone"),
        "Failed to connect to LLM backend at http://h: gone"
    );
    assert_eq!(failing_backend("500 Oops", "no"), "LLM backend error (500 Oops): no");
}

#[test]
fn lines_of_an_answer() {
    assert!(matches!(meaning_of_line(""), Line::Nothing));
    assert!(matches!(meaning_of_line(": ping"), Line::Nothing));
    assert!(matches!(meaning_of_line("data:x"), Line::Nothing));
    assert!(matches!(meaning_of_line("data: "), Line::Nothing));
    assert!(matches!(meaning_of_line("  data: [DONE]\r\n"), Line::Done));
    match meaning_of_line("data: {\"a\": 1} \r\n") {
        Line::Data(d) => assert_eq!(d, "{\"a\": 1}"),
        other => panic!("{:?}", other),
    }
    match meaning_of_line("data: [DONE]x") {
        Line::Data(d) => assert_eq!(d, "[DONE]x"),
        other => panic!("{:?}", other),
    }
}

fn event(content: &str) -> String {
    format!("data: {{\"choices\":[{{\"delta\":{{\"content\":\"{}\"}}}}]}}\n", content)
}

#[test]
fn contents_of_events() {
    assert_eq!(
        content_of("{\"choices\":[{\"delta\":{\"content\":\"hi\"}}]}"),
        Some("hi".to_string())
    );
    assert_eq!(content_of("{\"choices\":{\"0\":{\"delta\":{\"content\":\"hi\"}}}}"), None);
    assert_eq!(content_of("{\"choices\":[]}"), None);
    assert_eq!(content_of("{\"choices\":[{\"delta\":{\"content\":7}}]}"), None);
    assert_eq!(content_of("{\"choices\":[{\"delta\":{\"content\":\"\"}}]}"), None);
    assert_eq!(content_of("not json"), None);
    assert_eq!(content_of_event(true, Some("x".to_string())), Some("x".to_string()));
    assert_eq!(content_of_event(false, Some("x".to_string())), None);
    assert_eq!(content_of_event(true, Some("".to_string())), None);
    assert_eq!(content_of_event(true, None), None);
}

#[test]
fn an_answer_may_come_in_any_pieces() {
    let text = format!("{}\n: ping\n{}{}", event("Hello"), event(", wörld"), event("!"));
    let mut whole = AnswerReader::new();
    let at_once = whole.feed(&text);
    assert_eq!(at_once, vec!["Hello", ", wörld", "!"]);
    let mut reader = AnswerReader::new();
    let mut got: Vec<String> = Vec::new();
    for c in text.chars() {
        got.extend(reader.feed(&c.to_string()));
    }
    assert_eq!(got, at_once);
    assert_eq!(reader.metrics(0), whole.metrics(0));
    assert_eq!(whole.metrics(0).0, 1 + 3 + 2);
}

#[test]
fn an_end_mark_stops_reading_until_more_comes() {
    let mut reader = AnswerReader::new();
    let first = format!("{}data: [DONE]\n{}", event("a"), event("b"));
    assert_eq!(reader.feed(&first), vec!["a"]);
    assert_eq!(reader.feed(""), vec!["b"]);
    assert!(reader.feed("data: {\"choices\"").is_empty());
    assert_eq!(reader.feed(":[{\"delta\":{\"content\":\"c\"}}]}\n"), vec!["c"]);
}

#[test]
fn bytes_that_are_no_text_are_replaced() {
    let mut reader = AnswerReader::new();
    let mut bytes = event("x").into_bytes();
    let at = bytes.iter().position(|b| *b == b'x').unwrap();
    bytes[at] = 0xff;
    assert_eq!(reader.feed_bytes(&bytes), vec!["\u{FFFD}"]);
    let mut plain = AnswerReader::new();
    assert_eq!(plain.feed_bytes(event("é").as_bytes()), vec!["é"]);
}

#[test]
fn speeds_of_answers() {
    let mut reader = AnswerReader::new();
    reader.feed(&event("one two three four five six"));
    let (tokens, tps) = reader.metrics(2.5f64.to_bits());
    assert_eq!((tokens, f64::from_bits(tps)), (6, 6.0 / 2.5));
    assert_eq!(f64::from_bits(reader.metrics(0.0f64.to_bits()).1), 0.0);
    assert_eq!(f64::from_bits(speed_of(10, 0, 25.0f64.to_bits())), 25.0);
    assert_eq!(AnswerReader::new().metrics(1.0f64.to_bits()), (0, 0));
}
