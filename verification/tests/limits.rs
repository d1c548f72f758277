use teamcodex::duration::duration_seconds;
use teamcodex::headers::has;
use teamcodex::headers::level_of;
use teamcodex::headers::text_of;
use teamcodex::headers::Header;
use teamcodex::json::Json;
use teamcodex::level::Level;
use teamcodex::models::unavailable;
use teamcodex::quota::api_headers;
use teamcodex::quota::headers;
use teamcodex::quota::normalize;
use teamcodex::quota::reset_credits;
use teamcodex::quota::retry_at;
use teamcodex::quota::retry_from;
use teamcodex::quota::stream_hold;
use teamcodex::quota::usage;
use teamcodex::quota::Window;

fn json(text: &str) -> Json {
    Json::parse(text.as_bytes()).unwrap()
}

fn level(value: f64) -> Level {
    Level { bits: value.to_bits() }
}

fn header(name: &str, text: &str) -> Header {
    Header { name: name.to_string(), text: Some(text.to_string()) }
}

fn number(level: Level) -> f64 {
    f64::from_bits(level.bits)
}

#[test]
fn recognizes_explicit_rejections_only() {
    assert!(unavailable(&json(r#"{"error":{"code":"model_not_found"}}"#), "spark"));
    assert!(unavailable(
        &json(r#"{"type":"response.failed","response":{"error":{"code":"model_access_denied"}}}"#),
        "spark"
    ));
    assert!(unavailable(
        &json(r#"{"detail":"The 'spark' model is not supported when using Codex with a ChatGPT account."}"#),
        "spark"
    ));
    for value in [
        json(r#"{"error":{"code":"permission_denied"}}"#),
        json(r#"{"error":{"code":"unsupported_parameter","param":"temperature"}}"#),
        json(r#"{"error":{"message":"This model does not support temperature"}}"#),
        json(r#"{"detail":"The 'other' model is not supported when using Codex with a ChatGPT account."}"#),
        json(r#"{"error":{"code":"content_policy_violation"}}"#),
    ] {
        assert!(!unavailable(&value, "spark"));
    }
}

#[test]
fn reads_extra_buckets_and_resets() {
    let q = usage(
        &json(
            r#"{"rate_limit":{"primary_window":{"used_percent":99,"reset_at":100,"limit_window_seconds":604800}},
            "additional_rate_limits":[{"metered_limit_name":"codex_spark","rate_limit":{"secondary_window":{"used_percent":87,"reset_after_seconds":20}}}]}"#,
        ),
        90,
    );
    assert_eq!(number(q.get("codex-primary").unwrap().used(99)), 99.0);
    assert_eq!(number(q.get("codex-primary").unwrap().used(100)), 0.0);
    assert_eq!(q.get("codex-primary").unwrap().window_minutes, Some(10080));
    assert_eq!(q.get("codex-spark-secondary").unwrap().reset_at, Some(110));
}

#[test]
fn reads_headers_and_rejects_nan() {
    let h = vec![
        header("x-codex-primary-used-percent", "NaN"),
        header("x-codex-spark-secondary-used-percent", "99"),
        header("x-codex-spark-secondary-reset-at", "123"),
    ];
    let q = headers(&h);
    assert_eq!(q.len(), 1);
    assert_eq!(q.get("codex-spark-secondary").unwrap().reset_at, Some(123));
}

#[test]
fn api_headers_support_compound_and_fractional_resets() {
    let mut h = Vec::new();
    for (name, value) in [
        ("x-ratelimit-limit-requests", "100"),
        ("x-ratelimit-remaining-requests", "2"),
        ("x-ratelimit-reset-requests", "6m0s"),
        ("x-ratelimit-limit-tokens", "1000"),
        ("x-ratelimit-remaining-tokens", "100"),
        ("x-ratelimit-reset-tokens", "1s200ms"),
    ] {
        h.push(header(name, value));
    }
    let quotas = api_headers(&h, "test", 100);
    assert_eq!(number(quotas.get("api:test:requests").unwrap().used_percent), 98.0);
    assert_eq!(quotas.get("api:test:requests").unwrap().reset_at, Some(460));
    assert_eq!(quotas.get("api:test:tokens").unwrap().reset_at, Some(102));
    assert_eq!(duration_seconds("2.5s"), Some(3));
    assert_eq!(duration_seconds("NaNs"), None);
    assert_eq!(duration_seconds("12"), None);
}

#[test]
fn stream_limits_use_error_code_and_reported_delay() {
    let event = json(
        r#"{"type":"response.failed","response":{"error":{
            "code":"rate_limit_exceeded","message":"Please try again in 11.054s. More details."}}}"#,
    );
    assert_eq!(stream_hold(&event, 100), Some(113));
    assert_eq!(
        stream_hold(&json(r#"{"type":"error","code":"usage_limit_reached","resets_at":900}"#), 100),
        Some(900)
    );
    assert_eq!(
        stream_hold(
            &json(r#"{"type":"error","code":"unknown_error","message":"Please try again in 1s."}"#),
            100
        ),
        None
    );
}

#[test]
fn durations_add_up_their_parts() {
    assert_eq!(duration_seconds("1d2h3m4s"), Some(93784));
    assert_eq!(duration_seconds("200ms"), Some(1));
    assert_eq!(duration_seconds("1ms"), Some(1));
    assert_eq!(duration_seconds("0s"), Some(0));
    assert_eq!(duration_seconds(""), None);
    assert_eq!(duration_seconds("-1s"), None);
    assert_eq!(duration_seconds("1x"), None);
}

#[test]
fn a_window_opens_when_it_resets() {
    let window = Window { used_percent: level(99.0), reset_at: Some(50), window_minutes: None };
    assert_eq!(window.used(49), level(99.0));
    assert_eq!(window.used(50), level(0.0));
    let window = Window { used_percent: level(99.0), reset_at: None, window_minutes: None };
    assert_eq!(window.used(1_000_000), level(99.0));
}

#[test]
fn names_are_normalized_once() {
    assert_eq!(normalize("Codex_Spark"), "codex-spark");
    assert_eq!(normalize(&normalize("Codex_Spark")), normalize("Codex_Spark"));
}

#[test]
fn a_retry_is_bounded_and_reads_dates() {
    assert_eq!(retry_at(&vec![header("retry-after", "7")], 100), 107);
    assert_eq!(retry_at(&vec![header("retry-after", "0")], 100), 101);
    assert_eq!(retry_at(&vec![header("retry-after", "99999999")], 100), 100 + 604_800);
    assert_eq!(retry_at(&vec![], 100), 130);
    assert_eq!(retry_at(&vec![header("retry-after", "soon")], 100), 130);
    assert_eq!(
        retry_at(&vec![header("retry-after", "Thu, 01 Jan 1970 00:03:20 GMT")], 100),
        200
    );
    assert_eq!(retry_from(Some("Thu"), Some(150), 100), 150);
    assert_eq!(retry_from(Some("Thu"), None, 100), 130);
}

#[test]
fn credits_are_counted() {
    assert_eq!(reset_credits(&json(r#"{"available_count":3}"#)), Some(3));
    assert_eq!(
        reset_credits(&json(r#"{"rate_limit_reset_credits":{"available_count":2}}"#)),
        Some(2)
    );
    assert_eq!(reset_credits(&json("{}")), None);
}

#[test]
fn the_first_header_of_a_name_counts() {
    let list = vec![header("a", "1"), header("b", "x"), header("a", "2")];
    assert_eq!(text_of(&list, "a"), Some("1"));
    assert_eq!(level_of(&list, "a"), Some(level(1.0)));
    assert_eq!(level_of(&list, "b"), None);
    assert!(has(&list, "b"));
    assert!(!has(&list, "c"));
}

#[test]
fn levels_are_ordered_as_doubles_are() {
    let values = [-1e300, -2.0, -0.0, 0.0, 5e-324, 0.1, 94.9, 95.0, 100.0, 1e300];
    for a in values {
        for b in values {
            assert_eq!(level(a).at_least(level(b)), a >= b, "{a} {b}");
        }
        assert_eq!(level(a).is_positive(), a > 0.0);
        assert_eq!(level(a).is_usable(), a >= 0.0);
        assert_eq!(level(a).is_threshold(), a > 0.0 && a <= 100.0);
    }
    assert!(!level(f64::INFINITY).is_usable());
    assert!(!level(f64::NAN).is_usable());
    assert!(!level(f64::NAN).is_threshold());
}

#[test]
fn values_are_read_by_name_and_kind() {
    let value = json(r#"{"a":{"b":"text"},"n":-3,"u":7,"f":1.5,"t":true,"l":[1,2]}"#);
    assert_eq!(value.pointer("a", "b").unwrap().as_str(), Some("text"));
    assert_eq!(value.i64_at("n"), Some(-3));
    assert_eq!(value.u64_at("n"), None);
    assert_eq!(value.u64_at("u"), Some(7));
    assert_eq!(value.get("f").unwrap().as_level(), Some(level(1.5)));
    assert_eq!(value.bool_at("t"), Some(true));
    assert_eq!(value.get("l").unwrap().as_array().unwrap().len(), 2);
    assert_eq!(value.as_object().unwrap().len(), 6);
    assert!(value.is_object());
    assert!(value.get("missing").is_none());
    assert!(Json::parse(b"{").is_none());
    assert!(Json::parse(b"1 2").is_none());
}
