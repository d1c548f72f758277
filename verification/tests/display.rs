use teamcodex::json::Json;
use teamcodex::level::Level;
use teamcodex::percent::left_whole;
use teamcodex::percent::share_left;
use teamcodex::percent::whole;
use teamcodex::pool::fresh_account;
use teamcodex::pool::RequestLog;
use teamcodex::quota::Quotas;
use teamcodex::quota::Window;
use teamcodex::reset::read_answer;
use teamcodex::reset::read_outcome;
use teamcodex::reset::redeem_fields;
use teamcodex::reset::render_credits;
use teamcodex::reset::render_outcome;
use teamcodex::reset::summary;
use teamcodex::reset::Code;
use teamcodex::reset::Outcome;
use teamcodex::reset::ResetError;
use teamcodex::status::account_row;
use teamcodex::status::countdown;
use teamcodex::status::kind;
use teamcodex::status::other_limits;
use teamcodex::status::remaining;
use teamcodex::status::render;
use teamcodex::status::state_label;
use teamcodex::status::Kind;
use teamcodex::table::Table;
use teamcodex::tui;
use teamcodex::tui::Key;
use teamcodex::tui::Press;

fn json(text: &str) -> Json {
    Json::parse(text.as_bytes()).unwrap()
}

fn level(value: f64) -> Level {
    Level { bits: value.to_bits() }
}

fn status() -> Json {
    json(
        r#"{
            "at": 1000,
            "routing_healthy": true,
            "accounts": [
                {
                    "name": "personal", "disabled": false, "hold_until": 0, "in_flight": 1,
                    "requests": 11, "errors": 0, "last_error": null, "last_probe_ok": true, "reset_credits": 2,
                    "quotas": {
                        "codex-primary": {"used_percent": 96.0, "reset_at": 100000, "window_minutes": 10080},
                        "gpt-5.3-codex-spark-primary": {"used_percent": 0.0, "reset_at": 2000, "window_minutes": 300}
                    }
                },
                {
                    "name": "team", "disabled": false, "hold_until": 1023, "in_flight": 0, "threshold_percent": 100.0,
                    "requests": 115, "errors": 746, "last_error": "credential_unavailable", "last_probe_ok": false,
                    "quotas": {
                        "codex-primary": {"used_percent": 0.0, "reset_at": 500, "window_minutes": 300},
                        "codex-secondary": {"used_percent": 16.0, "reset_at": 519400, "window_minutes": 10080}
                    }
                },
                {
                    "name": "parked", "disabled": true, "hold_until": 0, "in_flight": 0,
                    "requests": 0, "errors": 0, "last_error": null, "last_probe_ok": null,
                    "quotas": {
                        "codex-primary": {"used_percent": 10.0, "reset_at": 100000, "window_minutes": 10080},
                        "codex-bengalfox-primary": {"used_percent": 99.0, "reset_at": 5000, "window_minutes": 300}
                    }
                }
            ]
        }"#,
    )
}

fn row<'a>(text: &'a str, name: &str) -> &'a str {
    text.lines().find(|l| l.starts_with(name)).expect("row present")
}

#[test]
fn weekly_only_account_shows_remaining_and_limited_state() {
    let text = render(&status(), level(95.0), 1000);
    let personal = row(&text, "personal");
    assert!(personal.contains("limited"), "{personal}");
    assert!(personal.contains("  95%  "), "default column: {personal}");
    assert!(personal.contains("  -  "), "no short window: {personal}");
    assert!(personal.contains("4% (+1d03h)"), "{personal}");
    assert_eq!(personal.split_whitespace().nth(7), Some("2"), "reset credits: {personal}");
    assert!(personal.contains("  ok  "), "{personal}");
    let team = row(&text, "team");
    assert_eq!(team.split_whitespace().nth(7), Some("-"), "unknown credits: {team}");
}

#[test]
fn short_and_weekly_windows_split_and_hold_shows_in_note() {
    let text = render(&status(), level(95.0), 1000);
    let team = row(&text, "team");
    assert!(team.contains("waiting"), "{team}");
    assert!(team.contains("  100%  "), "override column: {team}");
    assert!(team.contains("100%"), "expired short window reads full: {team}");
    assert!(team.contains("84% (+6d00h)"), "{team}");
    assert!(team.contains("fail"), "{team}");
    assert!(team.ends_with("credential_unavailable, hold +23s"), "{team}");
}

#[test]
fn disabled_account_lists_other_limits() {
    let text = render(&status(), level(95.0), 1000);
    let parked = row(&text, "parked");
    assert!(parked.contains("disabled"), "{parked}");
    assert!(parked.contains("codex-bengalfox-primary 99%"), "{parked}");
    assert!(text.starts_with("accounts 3  ready 0  threshold 95%  routing ok\n"));
}

#[test]
fn countdown_scales_with_distance() {
    assert_eq!(countdown(1045, 1000), "+45s");
    assert_eq!(countdown(1000 + 12 * 60, 1000), "+12m");
    assert_eq!(countdown(1000 + 5 * 3600 + 3 * 60, 1000), "+5h03m");
    assert_eq!(countdown(1000 + 4 * 86400 + 22 * 3600, 1000), "+4d22h");
    assert_eq!(countdown(900, 1000), "+0s");
}

#[test]
fn empty_payload_renders_header_only() {
    let text = render(&json("{}"), level(95.0), 0);
    assert_eq!(text.lines().count(), 2);
    assert!(text.lines().nth(1).unwrap().starts_with("ACCOUNT"));
}

#[test]
fn credit_listing_names_count_and_rows() {
    let text = render_credits(&json(
        r#"{"available_count": 1, "credits": [
            {"id": "crd_1", "status": "available", "title": null, "expires_at": "2026-09-20T10:00:00Z"},
            {"id": "crd_0", "status": "redeemed", "title": "Launch bonus", "expires_at": null}
        ]}"#,
    ));
    assert!(text.starts_with("reset credits available: 1\n"), "{text}");
    assert!(text.contains("crd_1  available  Full reset    2026-09-20T10:00:00Z"), "{text}");
    assert!(text.contains("crd_0  redeemed   Launch bonus  never"), "{text}");
    assert_eq!(render_credits(&json("{}")), "reset credits available: 0\n");
}

#[test]
fn outcome_summary_reports_code_credits_and_codex_windows() {
    let text = render_outcome(
        &json(
            r#"{"account": "personal", "code": "reset", "windows_reset": 2, "reset_credits": 1,
                "quotas": {"codex-primary": {"used_percent": 0.0, "reset_at": 4600},
                           "gpt-spark-primary": {"used_percent": 50.0}}}"#,
        ),
        1000,
    );
    assert_eq!(
        text,
        "personal: reset 2 window(s); 1 reset credit(s) left\n  codex-primary 0% used, resets +1h00m\n"
    );
    let none = render_outcome(&json(r#"{"account": "a", "code": "no_credit"}"#), 0);
    assert_eq!(none, "a: no reset credit is available\n");
}

#[test]
fn whole_numbers_print_as_a_double_does() {
    for value in [
        0.0, 0.4, 0.5, 0.50000001, 1.5, 2.5, 3.5, 94.5, 95.0, 99.5, 99.49999999999999, 100.0, 1234.5,
        4503599627370495.5, 9007199254740993.0, 18446744073709551616.0, 1e21, 1.5e300, f64::MAX,
        f64::MIN_POSITIVE, 5e-324,
    ] {
        assert_eq!(whole(level(value)), format!("{value:.0}"));
        assert_eq!(whole(level(-value)), format!("{:.0}", -value));
    }
    assert_eq!(whole(level(f64::INFINITY)), "inf");
    assert_eq!(whole(level(f64::NEG_INFINITY)), "-inf");
    assert_eq!(whole(level(f64::NAN)), "NaN");
}

#[test]
fn what_is_left_is_the_difference_of_two_doubles() {
    let mut values = vec![
        0.0, -0.0, -3.0, 100.0, 120.0, 1e300, 5e-324, 1e-15, 1e-14, 7e-15, 0.5, 0.49999999999999994,
        0.5000000000000001, 1.5, 36.0, 35.99999999999999, 36.5, 36.49999999999999, 49.9, 50.0, 99.5,
        99.49999999999999, 99.50000000000001, 99.99999999999999,
    ];
    let mut share: f64 = 0.013;
    while share < 100.0 {
        values.push(share);
        share += 0.377;
    }
    for used in values {
        let left = (100.0 - used).clamp(0.0, 100.0);
        assert_eq!(left_whole(level(used)), format!("{left:.0}"), "{used:e}");
        assert_eq!(share_left(level(used)) as f64 / 140737488355328.0, left, "{used:e}");
    }
}

#[test]
fn labels_follow_the_order_of_causes() {
    let mut quotas: Quotas = Table::new();
    assert_eq!(state_label(false, 0, &quotas, level(95.0), 10), "ready");
    quotas.insert(
        "other".to_string(),
        Window { used_percent: level(95.0), reset_at: Some(20), window_minutes: None },
    );
    assert_eq!(state_label(false, 0, &quotas, level(95.0), 10), "limited");
    assert_eq!(state_label(false, 0, &quotas, level(95.0), 20), "ready");
    assert_eq!(state_label(false, 11, &quotas, level(95.0), 10), "waiting");
    assert_eq!(state_label(false, 10, &quotas, level(96.0), 10), "ready");
    assert_eq!(state_label(true, 11, &quotas, level(95.0), 10), "disabled");
}

#[test]
fn outcomes_are_objects_or_lists() {
    for (text, code, windows) in [
        (r#"{"code":"reset","windows_reset":2,"more":1}"#, Code::Reset, 2),
        (r#"{"code":"no_credit"}"#, Code::NoCredit, 0),
        (r#"["already_redeemed"]"#, Code::AlreadyRedeemed, 0),
        (r#"["reset",-3]"#, Code::Reset, -3),
        (r#"{"code":{"nothing_to_reset":null}}"#, Code::NothingToReset, 0),
        (r#"[{"reset":null},1]"#, Code::Reset, 1),
    ] {
        let outcome = read_outcome(&json(text)).unwrap();
        assert_eq!((outcome.code, outcome.windows_reset), (code, windows), "{text}");
    }
    for text in [
        "[]", "{}", "null", r#""reset""#, r#"["reset",1,2]"#, r#"["reset",null]"#, r#"["other"]"#,
        r#"{"code":{"reset":1}}"#, r#"{"code":{"reset":null,"no_credit":null}}"#, r#"{"code":{}}"#,
        r#"{"code":["reset"]}"#, r#"{"code":"reset","windows_reset":1.5}"#,
    ] {
        assert!(read_outcome(&json(text)).is_none(), "{text}");
    }
}

#[test]
fn windows_are_objects_or_lists() {
    let shown = |window: &str| {
        let text = format!(
            "{{\"accounts\":[{{\"name\":\"personal\",\"quotas\":{{\"codex-primary\":{window}}}}}]}}"
        );
        render(&json(&text), level(95.0), 1000)
    };
    let object = shown(r#"{"used_percent":96,"reset_at":100000,"window_minutes":10080}"#);
    assert!(object.contains("4% (+1d03h)"), "{object}");
    assert_eq!(shown("[96,100000,10080]"), object);
    let none = shown("{}");
    assert_ne!(none, object);
    for window in ["[96,100000]", "[96,100000,10080,1]", "[]", r#"["96",100000,10080]"#, "96"] {
        assert_eq!(shown(window), none, "{window}");
    }
    assert_eq!(
        shown("[96,null,10080]"),
        shown(r#"{"used_percent":96,"window_minutes":10080}"#)
    );
}

#[test]
fn windows_are_told_apart_by_length() {
    let window = |minutes| Window { used_percent: level(0.0), reset_at: None, window_minutes: minutes };
    assert_eq!(kind("codex-primary", &window(Some(300))), Kind::Short);
    assert_eq!(kind("codex-primary", &window(Some(1440))), Kind::Short);
    assert_eq!(kind("codex-secondary", &window(Some(1441))), Kind::Weekly);
    assert_eq!(kind("codex-primary", &window(Some(0))), Kind::Other);
    assert_eq!(kind("codex-primary", &window(None)), Kind::Other);
    assert_eq!(kind("codex-spark-primary", &window(Some(300))), Kind::Other);
}

#[test]
fn the_tightest_window_of_a_kind_is_shown() {
    let mut quotas: Quotas = Table::new();
    assert_eq!(remaining(&quotas, Kind::Short, 0), "-");
    quotas.insert(
        "codex-primary".to_string(),
        Window { used_percent: level(40.0), reset_at: Some(50), window_minutes: Some(300) },
    );
    quotas.insert(
        "codex-secondary".to_string(),
        Window { used_percent: level(70.4), reset_at: None, window_minutes: Some(60) },
    );
    assert_eq!(remaining(&quotas, Kind::Short, 0), "30%");
    assert_eq!(remaining(&quotas, Kind::Weekly, 0), "-");
    assert_eq!(other_limits(&quotas, level(10.0), 0), "-");
    quotas.insert(
        "spark-primary".to_string(),
        Window { used_percent: level(99.6), reset_at: None, window_minutes: Some(60) },
    );
    quotas.insert(
        "zeta".to_string(),
        Window { used_percent: level(12.0), reset_at: None, window_minutes: None },
    );
    assert_eq!(other_limits(&quotas, level(10.0), 0), "spark-primary 100%, zeta 12%");
}

#[test]
fn unreadable_windows_count_as_none() {
    let row = account_row(
        &json(r#"{"name":"a","quotas":{"codex-primary":{"used_percent":99,"reset_at":-1}}}"#),
        level(95.0),
        0,
    );
    assert_eq!(row, ["a", "ready", "95%", "-", "-", "-", "-", "0", "0", "0", "-", "-"]);
    let row = account_row(
        &json(r#"{"quotas":{"codex-primary":{"used_percent":99,"window_minutes":300}},"reset_credits":-2}"#),
        level(95.0),
        0,
    );
    assert_eq!(row, ["?", "limited", "95%", "1%", "-", "-", "-2", "0", "0", "0", "-", "-"]);
}

#[test]
fn routing_health_stands_above_the_table() {
    let text = render(&json(r#"{"routing_healthy":false,"accounts":[{"name":"a"}]}"#), level(80.0), 0);
    assert!(text.starts_with("accounts 1  ready 1  threshold 80%  routing UNHEALTHY\n"), "{text}");
    let text = render(&json("{}"), level(80.0), 0);
    assert!(text.starts_with("accounts 0  ready 0  threshold 80%  routing -\n"), "{text}");
}

#[test]
fn outcomes_are_read_and_told() {
    let outcome = read_outcome(&json(r#"{"code":"reset","windows_reset":2}"#)).unwrap();
    assert_eq!(outcome, Outcome { code: Code::Reset, windows_reset: 2 });
    assert!(outcome.reset());
    let outcome = read_outcome(&json(r#"{"code":"already_redeemed"}"#)).unwrap();
    assert_eq!(outcome, Outcome { code: Code::AlreadyRedeemed, windows_reset: 0 });
    assert!(outcome.reset());
    assert!(!read_outcome(&json(r#"{"code":"no_credit"}"#)).unwrap().reset());
    assert!(!read_outcome(&json(r#"{"code":"nothing_to_reset"}"#)).unwrap().reset());
    assert_eq!(read_outcome(&json(r#"{"code":"other"}"#)), None);
    assert_eq!(read_outcome(&json(r#"{"code":"reset","windows_reset":"2"}"#)), None);
    assert_eq!(read_outcome(&json("{}")), None);
    for code in [Code::Reset, Code::NothingToReset, Code::NoCredit, Code::AlreadyRedeemed] {
        assert_eq!(Code::of(code.name()), Some(code));
    }
    let told = |code: &str| render_outcome(&json(&format!("{{\"account\":\"a\",\"code\":\"{code}\"}}")), 0);
    assert_eq!(told("reset"), "a: reset 0 window(s)\n");
    assert_eq!(told("already_redeemed"), "a: this request already reset the windows\n");
    assert_eq!(told("nothing_to_reset"), "a: no window needed a reset; no credit was used\n");
    assert_eq!(told("other"), "a: other\n");
    assert_eq!(render_outcome(&json("{}"), 0), "?: ?\n");
}

#[test]
fn answers_about_credits_name_what_went_wrong() {
    assert_eq!(summary(br#"{"error":{"message":"first"},"detail":"second"}"#), "first");
    assert_eq!(summary(br#"{"error":{"message":1},"detail":"second"}"#), "second");
    assert_eq!(summary(br#"{"message":"third"}"#), "third");
    assert_eq!(summary(b"not json"), "no error message");
    assert_eq!(read_answer(200, b"{}").unwrap().as_u64(), None);
    assert_eq!(read_answer(200, b"{").unwrap_err(), "upstream answered with invalid JSON");
    assert_eq!(
        read_answer(503, br#"{"detail":"busy"}"#).unwrap_err(),
        "upstream answered 503: busy"
    );
}

#[test]
fn a_redemption_names_its_attempt_and_its_credit() {
    let fields = redeem_fields("attempt", None).unwrap();
    assert_eq!(fields, [("redeem_request_id".to_string(), "attempt".to_string())]);
    let fields = redeem_fields("attempt", Some("crd_1")).unwrap();
    assert_eq!(fields[1], ("credit_id".to_string(), "crd_1".to_string()));
    assert_eq!(redeem_fields("attempt", Some("")), Err(ResetError::Credit));
    assert_eq!(ResetError::Credit.message(), "credit id must not be empty");
    assert_eq!(ResetError::Account.message(), "unknown account");
    assert_eq!(
        ResetError::Endpoint.message(),
        "this account has no usage-limit reset endpoint"
    );
}

#[test]
fn keys_move_the_selection_and_toggle_accounts() {
    assert_eq!(tui::key('q'), Key::Quit);
    assert_eq!(tui::key('j'), Key::Down);
    assert_eq!(tui::key('k'), Key::Up);
    assert_eq!(tui::key(' '), Key::Toggle);
    assert_eq!(tui::key('x'), Key::Other);
    assert_eq!(tui::press(Key::Quit, 0, 2), Press::Stop);
    assert_eq!(tui::press(Key::Down, 0, 2), Press::Select(1));
    assert_eq!(tui::press(Key::Down, 1, 2), Press::Select(0));
    assert_eq!(tui::press(Key::Down, 0, 0), Press::Select(0));
    assert_eq!(tui::press(Key::Up, 1, 2), Press::Select(0));
    assert_eq!(tui::press(Key::Up, 0, 2), Press::Select(0));
    assert_eq!(tui::press(Key::Toggle, 1, 2), Press::Toggle(1));
    assert_eq!(tui::press(Key::Toggle, 0, 0), Press::Nothing);
    assert_eq!(tui::press(Key::Other, 0, 2), Press::Nothing);
    assert_eq!(tui::select(5, 2), 1);
    assert_eq!(tui::select(1, 2), 1);
    assert_eq!(tui::select(1, 0), 0);
}

#[test]
fn the_newest_answers_come_first() {
    let logs: Vec<RequestLog> = (0..7)
        .map(|i| RequestLog {
            at: i,
            account: format!("a{i}"),
            status: 200,
            outcome: "complete".to_string(),
        })
        .collect();
    let text = tui::recent(&logs);
    assert_eq!(text.lines().count(), 5);
    assert!(text.starts_with("a6  200  complete\na5  200  complete\n"));
    assert_eq!(tui::recent(&Vec::new()), "");
}

#[test]
fn an_unpriced_request_marks_the_cost() {
    let account = teamcodex::config::Account {
        name: "a".to_string(),
        kind: teamcodex::config::Kind::Api,
        base_url: None,
        usage_url: None,
        account_id: None,
        user_id: None,
        credential: teamcodex::config::Credential::Env { name: "KEY".to_string() },
        priority: 0,
        disabled: false,
        groups: vec![],
        models: vec![],
        threshold_percent: None,
        auto_reset: false,
    };
    let mut state = fresh_account(&account, level(95.0));
    assert_eq!(
        tui::row(&state, 0),
        ["a", "ready", "0", "0", "0/0", "$0.0000", "unknown"]
    );
    state.unpriced_requests = 1;
    state.estimated_cost_usd = level(1.25);
    state.quotas.insert(
        "codex-primary".to_string(),
        Window { used_percent: level(12.5), reset_at: None, window_minutes: None },
    );
    state.quotas.insert(
        "codex-secondary".to_string(),
        Window { used_percent: level(97.0), reset_at: None, window_minutes: None },
    );
    assert_eq!(
        tui::row(&state, 0),
        ["a", "limited", "0", "0", "0/0", "$1.2500+?", "codex-primary 12% | codex-secondary 97%"]
    );
}
