use cerveau::ingest_gate::{
    api_key, is_answered, judge_model, judge_reply, judge_request, judge_url, parse_mode,
    parse_noul, parse_reply, preview, request_body, should_drop, threshold, GateMode,
    DEFAULT_MODEL, DEFAULT_THRESHOLD_BITS, DEFAULT_URL, MAX_GATED_BYTES, MAX_JUDGED_CHARS,
};
use cerveau::score::Score;

fn score(p: f64) -> Score {
    Score { bits: p.to_bits() }
}

fn json(text: &str) -> serde_json::Value {
    serde_json::from_str(text).unwrap()
}

#[test]
fn modes_default_off() {
    assert_eq!(parse_mode(None), GateMode::Off);
    assert_eq!(parse_mode(Some("nonsense")), GateMode::Off);
    assert_eq!(parse_mode(Some(" Shadow ")), GateMode::Shadow);
    assert_eq!(parse_mode(Some("enforce")), GateMode::Enforce);
}

#[test]
fn parses_system_one_answers() {
    let ok = json(r#"{"answers": {"durable": {"type": "noul", "noul": 0.02}}}"#);
    assert_eq!(parse_noul(&ok).map(|s| f64::from_bits(s.bits)), Some(0.02));
    assert_eq!(parse_noul(&json(r#"{"answers": {}}"#)), None);
    assert_eq!(parse_noul(&json(r#"{"answers": {"durable": {"noul": 7.0}}}"#)), None);
}

#[test]
fn drops_only_when_every_judged_part_is_chatter() {
    assert!(should_drop(&[Some(score(0.02))], score(0.10)));
    assert!(!should_drop(&[Some(score(0.02)), Some(score(0.6))], score(0.10)));
    assert!(
        !should_drop(&[Some(score(0.02)), None], score(0.10)),
        "a failed judgment keeps the add"
    );
    assert!(!should_drop(&[], score(0.10)));
    assert!(!should_drop(&[Some(score(0.10))], score(0.10)), "at the threshold is kept");
}

#[test]
fn request_clips_long_text() {
    let long = "x".repeat(MAX_JUDGED_CHARS + 50);
    let body = request_body(DEFAULT_MODEL, &long);
    let sent = body["state"]["memory"]["text"].as_str().unwrap_or_default();
    assert_eq!(sent.chars().count(), MAX_JUDGED_CHARS);
    assert_eq!(body["questions"]["durable"]["type"], "noul");
}

#[test]
fn a_request_is_spelled_out() {
    let body = request_body("m", "prefers short answers");
    assert_eq!(
        body,
        json(
            r#"{
            "model": "m",
            "state": { "memory": { "text": "prefers short answers" } },
            "questions": {
                "durable": {
                    "type": "noul",
                    "instructions": "Does `memory.text` state a durable business fact worth keeping in a long-term knowledge graph?",
                    "criteria": {
                        "true": "A concrete, lasting fact about people, organisations, deals, products, policies, preferences, commitments or relationships that will still matter later.",
                        "false": "Small talk, greetings, acknowledgements, transient status updates, or chatter with no lasting fact."
                    }
                }
            }
        }"#
        )
    );
}

#[test]
fn answers_outside_the_unit_interval_are_no_scores() {
    let noul = |text: &str| {
        let body = json(&format!(r#"{{"answers":{{"durable":{{"noul":{text}}}}}}}"#));
        parse_noul(&body).map(|s| f64::from_bits(s.bits))
    };
    assert_eq!(noul("0"), Some(0.0));
    assert_eq!(noul("1"), Some(1.0));
    assert_eq!(noul("1.0"), Some(1.0));
    assert_eq!(noul("-0.0"), Some(0.0));
    assert_eq!(noul("2"), None);
    assert_eq!(noul("18446744073709551615"), None);
    assert_eq!(noul("-1"), None);
    assert_eq!(noul("-9223372036854775808"), None);
    assert_eq!(noul("-0.1"), None);
    assert_eq!(noul("1.0000000000000002"), None);
    assert_eq!(noul("\"0.5\""), None);
    assert_eq!(noul("null"), None);
}

#[test]
fn scores_compare_as_doubles() {
    let values = [
        f64::NEG_INFINITY,
        -1.5,
        -f64::MIN_POSITIVE,
        -0.0,
        0.0,
        5e-324,
        0.02,
        0.1,
        1.0,
        f64::MAX,
        f64::INFINITY,
        f64::NAN,
        -f64::NAN,
    ];
    for a in values {
        assert_eq!(score(a).is_in_unit(), (0.0..=1.0).contains(&a));
        for b in values {
            assert_eq!(score(a).is_below(&score(b)), a < b);
        }
    }
}

#[test]
fn thresholds_out_of_range_fall_back() {
    let limit = |t: Option<f64>| f64::from_bits(threshold(t.map(score)).bits);
    assert_eq!(f64::from_bits(DEFAULT_THRESHOLD_BITS), 0.10);
    assert_eq!(limit(None), 0.10);
    assert_eq!(limit(Some(0.25)), 0.25);
    assert_eq!(limit(Some(0.0)), 0.0);
    assert_eq!(limit(Some(1.0)), 1.0);
    assert_eq!(limit(Some(1.5)), 0.10);
    assert_eq!(limit(Some(-0.5)), 0.10);
    assert_eq!(limit(Some(f64::NAN)), 0.10);
}

#[test]
fn more_texts_and_lower_thresholds_drop_less() {
    assert!(should_drop(&[Some(score(0.02)), Some(score(0.05))], score(0.10)));
    assert!(should_drop(&[Some(score(0.02))], score(0.10)));
    assert!(!should_drop(&[Some(score(0.02)), Some(score(0.05))], score(0.03)));
    assert!(!should_drop(&[Some(score(0.02))], score(f64::NAN)));
}

#[test]
fn previews_are_one_short_line() {
    assert_eq!(preview("  all\temails\n\nhave been\u{a0}sent "), "all emails have been sent");
    assert_eq!(preview(""), "");
    assert_eq!(preview(" \n "), "");
    let long = preview(&"ab\n".repeat(100));
    assert_eq!(long.chars().count(), 120);
    assert!(long.starts_with("ab ab ab"));
    assert!(!long.contains('\n'));
    assert_eq!(preview(&"é".repeat(200)), "é".repeat(120));
}

#[test]
fn replies_are_read_only_where_they_answer() {
    let body = br#"{"answers":{"durable":{"noul":0.75}}}"#;
    assert_eq!(parse_reply(body), Some(score(0.75)));
    assert_eq!(parse_reply(b"{"), None);
    assert_eq!(parse_reply(b"\xff"), None);
    assert_eq!(judge_reply(200, Some(body)), Some(score(0.75)));
    assert_eq!(judge_reply(299, Some(body)), Some(score(0.75)));
    assert_eq!(judge_reply(500, Some(body)), None);
    assert_eq!(judge_reply(200, None), None);
    assert!(!is_answered(199) && is_answered(200) && is_answered(299) && !is_answered(300));
}

#[test]
fn the_own_key_goes_first() {
    assert_eq!(api_key(Some(" a "), Some("b")).as_deref(), Some("a"));
    assert_eq!(api_key(Some("  "), Some(" b\n")).as_deref(), Some("b"));
    assert_eq!(api_key(None, Some("b")).as_deref(), Some("b"));
    assert_eq!(api_key(None, Some(" ")), None);
    assert_eq!(api_key(Some(""), None), None);
    assert_eq!(api_key(None, None), None);
}

#[test]
fn the_judge_is_asked_with_what_is_configured() {
    assert_eq!(judge_url(None), DEFAULT_URL);
    assert_eq!(judge_url(Some("".to_string())), "");
    assert_eq!(judge_model(None), DEFAULT_MODEL);
    assert_eq!(judge_model(Some("m".to_string())), "m");
    assert!(judge_request(None, Some(" "), None, None, "x").is_none());
    let request = judge_request(Some("k"), None, None, Some("m".to_string()), "x").unwrap();
    assert_eq!(request.url, DEFAULT_URL);
    assert_eq!(request.key, "k");
    assert_eq!(request.body, request_body("m", "x"));
}

#[test]
fn documents_are_larger_than_the_gate_looks_at() {
    assert_eq!(MAX_GATED_BYTES, 64 * 1024);
}
