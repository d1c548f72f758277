use teamcodex::affinity::Routing;
use teamcodex::config::Account;
use teamcodex::config::Config;
use teamcodex::config::ConfigError;
use teamcodex::config::Credential;
use teamcodex::config::Ip;
use teamcodex::config::Kind;
use teamcodex::config::Listen;
use teamcodex::config::Price;
use teamcodex::identity::account_binding;
use teamcodex::identity::session_binding;
use teamcodex::json::Json;
use teamcodex::level::Level;
use teamcodex::now;
use teamcodex::pool::Pool;
use teamcodex::quota::Quotas;
use teamcodex::quota::Window;
use teamcodex::reset::Code;
use teamcodex::reset::Outcome;
use teamcodex::table::Table;
use teamcodex::tui;

fn level(value: f64) -> Level {
    Level { bits: value.to_bits() }
}

fn json(text: &str) -> Json {
    Json::parse(text.as_bytes()).unwrap()
}

fn account(name: &str, base: &str) -> Account {
    Account {
        name: name.to_string(),
        kind: Kind::Api,
        base_url: Some(base.to_string()),
        usage_url: None,
        account_id: None,
        user_id: None,
        credential: Credential::Command {
            argv: vec!["credential-helper".to_string(), name.to_string()],
            cache_seconds: 240,
        },
        priority: 0,
        disabled: false,
        groups: vec![],
        models: vec![],
        threshold_percent: None,
        auto_reset: false,
    }
}

fn config(base: &str) -> Config {
    Config {
        listen: Listen { ip: Ip::V4(127, 0, 0, 1), text: "127.0.0.1:0".to_string() },
        client_token_env: "TEST_CLIENT_TOKEN".to_string(),
        client_token_file: None,
        threshold_percent: level(95.0),
        probe_interval_seconds: 0,
        idle_timeout_seconds: 2,
        model_limits: Table::new(),
        prices: Table::new(),
        accounts: vec![account("a", base), account("b", base)],
    }
}

fn pool(config: Config) -> Pool {
    Pool::new(config).ok().unwrap()
}

fn window(id: &str, used: f64, reset_at: u64) -> Quotas {
    let mut quotas: Quotas = Table::new();
    quotas.insert(
        id.to_string(),
        Window { used_percent: level(used), reset_at: Some(reset_at), window_minutes: None },
    );
    quotas
}

fn completed(id: &str) -> Json {
    json(&format!(
        "{{\"id\":\"{id}\",\"usage\":{{\"input_tokens\":11,\"output_tokens\":7,\"input_tokens_details\":{{\"cached_tokens\":3}}}}}}"
    ))
}

fn pick(pool: &mut Pool, model: &str, group: Option<&str>) -> Option<usize> {
    let lease = pool.select(model, group, None, None, &[])?;
    let idx = lease.idx;
    pool.release(lease);
    Some(idx)
}

#[test]
fn selection_obeys_priority_groups_models_quota_and_expiry() {
    let mut cfg = config("http://127.0.0.1:1");
    cfg.accounts[0].priority = 0;
    cfg.accounts[1].priority = 10;
    cfg.model_limits.insert("spark".to_string(), vec!["codex-spark".to_string()]);
    let mut pool = Pool::new(cfg).ok().unwrap();
    pool.update_quotas(0, &window("codex-spark-primary", 100.0, now() + 100));
    assert_eq!(pick(&mut pool, "normal", None).unwrap(), 0);
    assert_eq!(pick(&mut pool, "spark", None).unwrap(), 1);
    pool.update_quotas(0, &window("codex-spark-primary", 100.0, now() - 1));
    assert_eq!(pick(&mut pool, "spark", None).unwrap(), 0);
    let mut cfg = config("http://127.0.0.1:1");
    cfg.accounts[0].groups = vec!["reserved".to_string()];
    cfg.accounts[0].models = vec!["spark".to_string()];
    let mut pool = Pool::new(cfg).ok().unwrap();
    assert_eq!(pick(&mut pool, "spark", None).unwrap(), 1);
    assert_eq!(pick(&mut pool, "spark", Some("reserved")).unwrap(), 0);
    assert!(pick(&mut pool, "other", Some("reserved")).is_none());
}

#[test]
fn invalid_configuration_is_rejected() {
    let mut cfg = config("http://example.com");
    assert!(cfg.validate().is_err());
    cfg = config("https://example.com");
    cfg.listen = Listen { ip: Ip::V4(0, 0, 0, 0), text: "0.0.0.0:4269".to_string() };
    assert!(cfg.validate().is_err());
    cfg = config("https://example.com");
    cfg.accounts[0].usage_url = Some("https://other.example.com/usage".to_string());
    assert!(cfg.validate().is_err());
    cfg = config("https://example.com");
    cfg.accounts[1].name = "a".to_string();
    assert!(cfg.validate().is_err());
}

#[test]
fn tui_displays_live_quota_and_token_counts() {
    let mut pool = pool(config("http://127.0.0.1:1"));
    pool.record(0, 200, "complete", Some(&completed("resp_tui")));
    let snapshot = pool.snapshot();
    let mut text = tui::banner().to_string();
    text.push_str(&tui::head().join(" "));
    for account in &snapshot.accounts {
        text.push_str(&tui::row(account, snapshot.at).join(" "));
    }
    text.push_str(&tui::recent(&snapshot.recent));
    let backend = ratatui::backend::TestBackend::new(130, 24);
    let mut terminal = ratatui::Terminal::new(backend).unwrap();
    terminal
        .draw(|frame| {
            let area = frame.area();
            let paragraph = ratatui::widgets::Paragraph::new(text)
                .wrap(ratatui::widgets::Wrap { trim: false });
            frame.render_widget(paragraph, area);
        })
        .unwrap();
    let buffer = terminal.backend().buffer();
    let text: String = buffer.content().iter().map(|cell| cell.symbol()).collect();
    assert!(text.contains("TeamCodex"));
    assert!(text.contains("11/7"));
    assert!(text.contains("unknown"));
    assert!(text.contains("complete"));
}

#[test]
fn price_estimate_counts_cached_input_once() {
    let mut cfg = config("http://127.0.0.1:1");
    cfg.prices.insert(
        "test".to_string(),
        Price {
            input_per_million: level(2.0),
            cached_input_per_million: level(0.5),
            output_per_million: level(10.0),
        },
    );
    let mut pool = Pool::new(cfg).ok().unwrap();
    pool.record_model(0, 200, "complete", Some(&completed("resp_cost")), "test");
    let account = &pool.snapshot().accounts[0];
    let cost = f64::from_bits(account.estimated_cost_usd.bits);
    assert!((cost - 0.0000875).abs() < 0.00000001);
    assert_eq!(cost, (8.0 * 2.0 + 3.0 * 0.5 + 7.0 * 10.0) / 1_000_000.0);
    assert_eq!(account.unpriced_requests, 0);
    pool.record_model(0, 200, "complete", Some(&completed("resp_unpriced")), "unknown");
    assert_eq!(pool.snapshot().accounts[0].unpriced_requests, 1);
    assert_eq!(f64::from_bits(pool.snapshot().accounts[0].estimated_cost_usd.bits), cost);
}

#[test]
fn additional_bucket_with_default_prefix_does_not_block_other_models() {
    let mut cfg = config("http://127.0.0.1:1");
    cfg.accounts.truncate(1);
    cfg.model_limits.insert("special".to_string(), vec!["codex-secondary".to_string()]);
    let mut pool = Pool::new(cfg).ok().unwrap();
    pool.update_quotas(0, &window("codex-secondary-primary", 100.0, now() + 60));
    assert!(pick(&mut pool, "normal", None).is_some());
    assert!(pick(&mut pool, "special", None).is_none());
}

#[test]
fn model_cache_is_bounded_and_model_checks_respect_groups_and_configuration() {
    let mut cfg = config("http://127.0.0.1:1");
    cfg.accounts[0].models = vec!["base".to_string()];
    cfg.accounts[1].groups = vec!["reserved".to_string()];
    let mut pool = Pool::new(cfg).ok().unwrap();
    assert!(pool.model_unavailable("spark", None, None));
    assert!(!pool.model_unavailable("spark", Some("reserved"), None));
    assert!(!pool.model_unavailable("base", None, None));
    pool.mark_model_unavailable(0, "base");
    assert!(pick(&mut pool, "base", None).is_none());
    assert!(pool.model_unavailable("base", None, None));
    pool.state.accounts[0].unavailable_models.insert("base".to_string(), now() - 1);
    assert!(pick(&mut pool, "base", None).is_some());
    for index in 0..500 {
        pool.mark_model_unavailable(0, &format!("model-{index}"));
    }
    assert_eq!(pool.snapshot().accounts[0].unavailable_models.len(), 256);
}

#[test]
fn an_established_session_stays_on_its_account() {
    let mut cfg = config("http://127.0.0.1:1");
    cfg.accounts[1].priority = 10;
    let mut pool = pool(cfg);
    pool.hold(0, 200, "rate_limited");
    let lease = pool.select_at("test", None, Some("session"), None, &[], 100).unwrap();
    assert_eq!(lease.idx, 1);
    pool.release(lease);
    let again = pool.select_at("test", None, Some("session"), None, &[], 300).unwrap();
    assert_eq!(again.idx, 1, "priority does not move an established session");
    let other = pool.select_at("other", None, Some("session"), None, &[], 300).unwrap();
    assert_eq!(other.idx, 0, "models keep separate bindings");
    let tried = pool.select_at("test", None, Some("session"), None, &[1], 300).unwrap();
    assert_eq!(tried.idx, 0, "an account that was tried is left");
}

#[test]
fn bindings_follow_an_account_through_a_change_of_order() {
    let at = 1_000;
    let mut first = pool(config("http://127.0.0.1:1"));
    let lease = first.select_at("test", None, Some("s"), Some(1), &[], at).unwrap();
    assert_eq!(lease.idx, 1);
    first.record_stored(1, 200, "complete", Some(&completed("chain")), "test", true, at);
    let bytes = first.state.routing.compact(at);
    let mut cfg = config("http://127.0.0.1:1");
    cfg.accounts.swap(0, 1);
    let second =
        Pool::with_routing(cfg, Routing::replay(&bytes, at).ok().unwrap()).ok().unwrap();
    assert_eq!(second.response_account_at("chain", at), Some(0));
    let choice = second.choose_at("test", None, Some("s"), None, &[], at).unwrap();
    assert_eq!(choice.idx, 0);
    assert!(choice.record.is_none(), "the binding is known");
    let mut cfg = config("http://127.0.0.1:1");
    cfg.accounts[1].base_url = Some("http://127.0.0.1:2".to_string());
    let third =
        Pool::with_routing(cfg, Routing::replay(&bytes, at).ok().unwrap()).ok().unwrap();
    assert_eq!(third.response_account_at("chain", at), None, "another account has no binding");
}

#[test]
fn least_used_and_least_recently_selected_go_first() {
    let mut pool = pool(config("http://127.0.0.1:1"));
    let first = pool.select_at("m", None, None, None, &[], 10).unwrap();
    let second = pool.select_at("m", None, None, None, &[], 10).unwrap();
    assert_eq!((first.idx, second.idx), (0, 1));
    pool.release(second);
    assert_eq!(pool.select_at("m", None, None, None, &[], 10).unwrap().idx, 1);
    pool.release(first);
    assert_eq!(pool.state.accounts[0].in_flight, 0);
    assert_eq!(pool.state.accounts[1].in_flight, 1);
    assert_eq!(pool.select_at("m", None, None, None, &[], 10).unwrap().idx, 0);
}

#[test]
fn a_reset_that_comes_first_is_used_first() {
    let mut pool = pool(config("http://127.0.0.1:1"));
    pool.update_quotas(0, &window("other", 10.0, 500));
    pool.update_quotas(1, &window("other", 10.0, 400));
    assert_eq!(pool.select_at("m", None, None, None, &[], 10).unwrap().idx, 1);
    let mut pool = Pool::new(config("http://127.0.0.1:1")).ok().unwrap();
    pool.update_quotas(0, &window("other", 10.0, 500));
    pool.update_quotas(1, &window("other", 10.0, 400));
    assert_eq!(pool.select_at("m", None, None, None, &[], 450).unwrap().idx, 0);
}

#[test]
fn an_account_threshold_overrides_the_default() {
    let mut cfg = config("http://127.0.0.1:1");
    cfg.accounts[1].threshold_percent = Some(level(100.0));
    let mut pool = pool(cfg);
    for idx in 0..2 {
        pool.update_quotas(idx, &window("codex-primary", 97.0, 1000));
    }
    assert_eq!(pool.select_at("m", None, None, None, &[], 10).unwrap().idx, 1);
    pool.update_quotas(1, &window("codex-primary", 100.0, 1000));
    assert!(pool.select_at("m", None, None, None, &[], 10).is_none());
    assert!(pool.select_at("m", None, None, None, &[], 1000).is_some());
}

#[test]
fn a_failed_write_stops_all_routing() {
    let mut pool = Pool::with_routing(config("http://127.0.0.1:1"), Routing::new(true)).ok().unwrap();
    let choice = pool.choose_at("m", None, Some("s"), None, &[], 10).unwrap();
    assert!(choice.record.is_some());
    assert!(pool.take(choice, false, 10).is_none());
    assert!(!pool.routing_healthy());
    assert!(pool.choose_at("m", None, None, None, &[], 10).is_none());
    assert!(!pool.snapshot_at(10).routing_healthy);
    assert!(pool.snapshot_at(10).routing_persistent);
}

#[test]
fn a_response_binds_the_requests_that_continue_it() {
    let mut pool = pool(config("http://127.0.0.1:1"));
    assert_eq!(pool.response_account_at("r", 10), None);
    let record = pool.response_record(1, Some(&completed("r")), 10);
    assert!(record.is_some());
    pool.record_stored(1, 200, "complete", Some(&completed("r")), "m", true, 10);
    assert_eq!(pool.response_account_at("r", 10), Some(1));
    assert!(pool.response_record(1, Some(&completed("r")), 20).is_none());
    assert!(pool.response_record(1, None, 20).is_none());
}

#[test]
fn the_clock_is_read_where_no_time_is_given() {
    let mut pool = pool(config("http://127.0.0.1:1"));
    assert_eq!(pool.retry_seconds(), 30);
    pool.hold(0, now() + 1_000, "rate_limited");
    assert!((990..=1_000).contains(&pool.retry_seconds()));
    assert_eq!(pool.response_account("r"), None);
    pool.record(1, 200, "complete", Some(&completed("r")));
    assert_eq!(pool.response_account("r"), Some(1));
}

#[test]
fn sessions_and_accounts_are_told_apart() {
    let keys = [
        session_binding("m", None, "s"),
        session_binding("m", Some("null"), "s"),
        session_binding("m", Some(""), "s"),
        session_binding("m", None, ""),
        session_binding("", None, "m"),
        session_binding("m\",null,\"s", None, ""),
        session_binding("m", None, "s\\"),
        session_binding("m\n", None, "s"),
    ];
    for i in 0..keys.len() {
        for j in 0..i {
            assert_ne!(keys[i], keys[j], "{i} {j}");
        }
    }
    let url = "http://127.0.0.1:1";
    let mut accounts = vec![account("a", url), account("b", url), account("a", "http://a")];
    for change in 0..6 {
        let mut changed = account("a", url);
        match change {
            0 => changed.kind = Kind::Chatgpt,
            1 => changed.account_id = Some("i".to_string()),
            2 => changed.user_id = Some("i".to_string()),
            3 => changed.credential = Credential::Env { name: "credential-helper".to_string() },
            4 => changed.credential = Credential::Managed { path: "/credential-helper".to_string() },
            _ => {
                changed.credential = Credential::Command {
                    argv: vec!["credential-helper\",\"a".to_string()],
                    cache_seconds: 240,
                }
            }
        }
        accounts.push(changed);
    }
    for i in 0..accounts.len() {
        for j in 0..i {
            assert_ne!(account_binding(&accounts[i]), account_binding(&accounts[j]), "{i} {j}");
        }
    }
    let mut same = account("a", url);
    same.priority = 3;
    same.groups = vec!["g".to_string()];
    assert_eq!(account_binding(&same), account_binding(&accounts[0]));
}

#[test]
fn selections_are_numbered() {
    let mut pool = pool(config("http://127.0.0.1:1"));
    let mut last = 0;
    for _ in 0..5 {
        let idx = pick(&mut pool, "m", None).unwrap();
        let number = pool.state.accounts[idx].selected;
        assert_eq!(number, last + 1);
        assert_eq!(pool.state.sequence, number);
        last = number;
    }
}

#[test]
fn a_response_survives_a_restart_with_another_order() {
    let mut first = pool(config("http://127.0.0.1:1"));
    let record = first.response_record(1, Some(&completed("r")), 10).unwrap();
    let journal = record.line();
    first.record_stored(1, 200, "complete", Some(&completed("r")), "m", true, 10);
    let restart = |accounts: Vec<Account>| {
        let mut cfg = config("http://127.0.0.1:1");
        cfg.accounts = accounts;
        let routing = Routing::replay(&journal, 20).ok().unwrap();
        Pool::with_routing(cfg, routing).ok().unwrap().response_account_at("r", 20)
    };
    let url = "http://127.0.0.1:1";
    assert_eq!(restart(vec![account("a", url), account("b", url)]), Some(1));
    assert_eq!(restart(vec![account("b", url), account("a", url)]), Some(0));
    assert_eq!(restart(vec![account("b", "http://127.0.0.1:2"), account("a", url)]), None);
    let mut other = account("b", url);
    other.priority = 7;
    assert_eq!(restart(vec![account("a", url), account("c", url), other]), Some(2));
}

#[test]
fn the_newest_outcomes_are_remembered() {
    let mut pool = pool(config("http://127.0.0.1:1"));
    for at in 0..150 {
        pool.record_stored(0, 500, "upstream_rejected", None, "m", true, at);
    }
    let snapshot = pool.snapshot_at(200);
    assert_eq!(snapshot.recent.len(), 100);
    assert_eq!(snapshot.recent[99].at, 149);
    assert_eq!(snapshot.recent[0].at, 50);
    assert_eq!(snapshot.accounts[0].requests, 150);
    assert_eq!(snapshot.accounts[0].errors, 150);
    assert_eq!(snapshot.accounts[0].unmetered_requests, 150);
    assert_eq!(snapshot.accounts[0].last_error.as_deref(), Some("upstream_rejected"));
    assert_eq!(snapshot.accounts[1].requests, 0);
}

#[test]
fn waiting_times_name_the_first_way_out() {
    let mut pool = pool(config("http://127.0.0.1:1"));
    assert_eq!(pool.retry_seconds_at(100), 30);
    assert!(pool.active_hold(100).is_none());
    pool.hold(0, 160, "rate_limited");
    pool.hold(1, 140, "connect_failed");
    assert_eq!(pool.retry_seconds_at(100), 40);
    assert_eq!(pool.active_hold(100), Some((140, "connect_failed".to_string())));
    pool.hold(0, 120, "rate_limited");
    assert_eq!(pool.state.accounts[0].hold_until, 160, "a hold never shortens");
    pool.update_quotas(0, &window("codex-primary", 99.0, 110));
    assert_eq!(pool.retry_seconds_at(100), 10);
    assert_eq!(pool.quota_reset_at(100), Some(110));
    assert_eq!(pool.quota_reset_at(110), None);
}

#[test]
fn a_rejected_model_returns_and_others_stay_open() {
    let mut pool = pool(config("http://127.0.0.1:1"));
    pool.mark_model_unavailable_at(0, "spark", 100);
    pool.mark_model_unavailable_at(1, "spark", 100);
    assert!(pool.model_unavailable_at("spark", None, None, 399));
    assert!(!pool.model_unavailable_at("spark", None, None, 400));
    assert!(!pool.model_unavailable_at("other", None, None, 100));
    assert!(pool.select_at("spark", None, None, None, &[], 399).is_none());
    assert!(pool.select_at("spark", None, None, None, &[], 400).is_some());
    assert!(pool.select_at("other", None, None, None, &[], 100).is_some());
    assert!(pool.snapshot_at(400).accounts[0].unavailable_models.len() == 0);
}

fn chatgpt(name: &str, auto_reset: bool) -> Account {
    let mut account = account(name, "https://example.com");
    account.kind = Kind::Chatgpt;
    account.base_url = None;
    account.account_id = Some("id".to_string());
    account.auto_reset = auto_reset;
    account
}

#[test]
fn a_reset_is_redeemed_only_where_opted_in_alone_and_not_too_often() {
    let mut cfg = config("https://example.com");
    cfg.accounts = vec![chatgpt("a", true), chatgpt("b", false)];
    let mut pool = pool(cfg);
    pool.update_quotas(0, &window("codex-primary", 100.0, 10_000));
    assert_eq!(pool.auto_reset_candidate("m", None, None, 100), Some(0));
    pool.update_quotas(1, &window("codex-primary", 100.0, 10_000));
    assert_eq!(pool.auto_reset_candidate("m", None, None, 100), None, "two accounts are limited");
    pool.set_enabled("b", false);
    assert_eq!(pool.auto_reset_candidate("m", None, None, 100), Some(0));
    assert!(pool.begin_auto_reset(0, 100));
    assert!(!pool.begin_auto_reset(0, 399), "one burst spends one credit");
    assert_eq!(pool.auto_reset_candidate("m", None, None, 399), None);
    assert!(pool.begin_auto_reset(0, 400));
    pool.take_outcome(0, Outcome { code: Code::NoCredit, windows_reset: 0 }, 400);
    assert_eq!(pool.state.accounts[0].reset_credits, Some(0));
    assert!(!pool.auto_reset_ready(0, 100_000));
    pool.set_enabled("b", true);
    pool.set_enabled("a", false);
    assert_eq!(pool.auto_reset_candidate("m", None, None, 100), None, "not opted in");
    pool.take_outcome(1, Outcome { code: Code::Reset, windows_reset: 1 }, 500);
    assert_eq!(pool.state.accounts[1].resets, 1);
    assert_eq!(pool.state.accounts[1].last_reset, Some(500));
    pool.take_outcome(1, Outcome { code: Code::NothingToReset, windows_reset: 0 }, 600);
    assert_eq!(pool.state.accounts[1].last_reset, Some(500));
}

#[test]
fn reset_endpoints_stand_next_to_usage_endpoints() {
    let mut cfg = config("https://example.com");
    cfg.accounts[0] = chatgpt("a", false);
    let pool = pool(cfg);
    assert_eq!(
        pool.reset_endpoint(0).unwrap(),
        "https://chatgpt.com/backend-api/wham/rate-limit-reset-credits"
    );
    assert_eq!(
        pool.reset_endpoint(1).unwrap_err().message(),
        "this account has no usage-limit reset endpoint"
    );
    assert_eq!(pool.reset_endpoint(9).unwrap_err().message(), "unknown account");
}

#[test]
fn a_reload_adds_updates_and_disables_accounts() {
    let mut pool = pool(config("http://127.0.0.1:1"));
    pool.hold(0, 500, "rate_limited");
    let mut next = config("http://127.0.0.1:1");
    next.accounts[0].priority = 3;
    next.accounts.remove(1);
    next.accounts.push(account("c", "http://127.0.0.1:1"));
    next.idle_timeout_seconds = 9;
    let reload = pool.reload(next).ok().unwrap();
    assert_eq!(reload.added, ["c"]);
    assert_eq!(reload.updated, ["a"]);
    assert_eq!(reload.removed, ["b"]);
    assert!(reload.restart_required);
    assert_eq!(pool.len(), 3);
    assert_eq!(pool.state.accounts[0].hold_until, 500);
    assert!(pool.state.accounts[1].disabled);
    assert_eq!(pool.state.accounts[1].last_error.as_deref(), Some("removed_from_config"));
    assert_eq!(pool.index("c"), Some(2));
    let mut next = config("http://127.0.0.1:1");
    next.accounts[0].priority = 3;
    next.accounts.remove(1);
    next.accounts.push(account("c", "http://127.0.0.1:1"));
    let reload = pool.reload(next).ok().unwrap();
    assert!(reload.added.is_empty() && reload.updated.is_empty() && reload.removed.is_empty());
    let mut invalid = config("http://127.0.0.1:1");
    invalid.accounts[1].name = "a".to_string();
    assert_eq!(pool.reload(invalid).err(), Some(ConfigError::Duplicate));
}

#[test]
fn probes_and_renewals_leave_disabled_accounts_alone() {
    let mut cfg = config("https://example.com");
    cfg.accounts[0].usage_url = Some("https://example.com/usage".to_string());
    cfg.accounts[1] = chatgpt("b", false);
    cfg.accounts[1].user_id = Some("user".to_string());
    cfg.accounts[1].credential = Credential::Managed { path: "/tmp/b.json".to_string() };
    let mut pool = pool(cfg);
    assert_eq!(pool.probed(), [0, 1]);
    assert_eq!(pool.renewable(), [1]);
    pool.toggle(1);
    assert_eq!(pool.probed(), [0]);
    assert!(pool.renewable().is_empty());
    pool.toggle(1);
    assert_eq!(pool.renewable(), [1]);
    pool.record_renewal(1, true);
    assert_eq!(pool.state.accounts[1].last_error.as_deref(), Some("login_or_refresh_required"));
    pool.record_renewal(1, false);
    assert_eq!(pool.state.accounts[1].last_error, None);
    pool.record_probe(0, false, 7);
    assert_eq!(pool.state.accounts[0].last_probe, Some(7));
    assert_eq!(pool.state.accounts[0].last_probe_ok, Some(false));
}

#[test]
fn usage_answers_update_windows_and_credits() {
    let mut pool = pool(config("http://127.0.0.1:1"));
    let value = json(
        r#"{"rate_limit":{"primary_window":{"used_percent":98,"reset_at":100}},
            "additional_rate_limits":[{"metered_limit_name":"codex_spark",
            "rate_limit":{"secondary_window":{"used_percent":72,"reset_at":200}}}],
            "rate_limit_reset_credits":{"available_count":4}}"#,
    );
    pool.take_usage(0, &value, 50);
    let quotas = &pool.state.accounts[0].quotas;
    assert_eq!(quotas.get("codex-primary").unwrap().used_percent, level(98.0));
    assert_eq!(quotas.get("codex-spark-secondary").unwrap().reset_at, Some(200));
    assert_eq!(pool.state.accounts[0].reset_credits, Some(4));
    pool.take_usage(0, &json("{}"), 60);
    assert_eq!(pool.state.accounts[0].reset_credits, Some(4));
}
