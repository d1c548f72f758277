use teamcodex::affinity::Routing;
use teamcodex::attempt::call_again;
use teamcodex::attempt::connect_delay;
use teamcodex::attempt::Action;
use teamcodex::attempt::Attempt;
use teamcodex::config::Account;
use teamcodex::config::Config;
use teamcodex::config::Credential;
use teamcodex::config::Ip;
use teamcodex::config::Kind;
use teamcodex::config::Listen;
use teamcodex::forward::observe;
use teamcodex::headers::Header;
use teamcodex::json::Json;
use teamcodex::level::Level;
use teamcodex::pool::Pool;
use teamcodex::quota::Quotas;
use teamcodex::quota::Window;
use teamcodex::reply::classify_send_error;
use teamcodex::reply::error;
use teamcodex::reply::pool_exhausted;
use teamcodex::reply::Failure;
use teamcodex::reply::Reply;
use teamcodex::route::accept;
use teamcodex::route::accept_value;
use teamcodex::route::authorized;
use teamcodex::route::read_enabled;
use teamcodex::route::read_reset;
use teamcodex::route::reset_ask;
use teamcodex::route::route;
use teamcodex::route::unknown_account;
use teamcodex::route::Asked;
use teamcodex::route::Method;
use teamcodex::route::Route;
use teamcodex::table::Table;

const TOKEN: &str = "test-client-token-not-a-secret";

fn level(value: f64) -> Level {
    Level { bits: value.to_bits() }
}

fn json(text: &str) -> Json {
    Json::parse(text.as_bytes()).unwrap()
}

fn header(name: &str, text: &str) -> Header {
    Header { name: name.to_string(), text: Some(text.to_string()) }
}

fn bearer() -> Vec<Header> {
    vec![header("authorization", &format!("Bearer {TOKEN}"))]
}

fn account(name: &str) -> Account {
    Account {
        name: name.to_string(),
        kind: Kind::Api,
        base_url: Some("http://127.0.0.1:1".to_string()),
        usage_url: None,
        account_id: None,
        user_id: None,
        credential: Credential::Env { name: "KEY".to_string() },
        priority: 0,
        disabled: false,
        groups: vec![],
        models: vec![],
        threshold_percent: None,
        auto_reset: false,
    }
}

fn config() -> Config {
    Config {
        listen: Listen { ip: Ip::V4(127, 0, 0, 1), text: "127.0.0.1:0".to_string() },
        client_token_env: "TEST_CLIENT_TOKEN".to_string(),
        client_token_file: None,
        threshold_percent: level(95.0),
        probe_interval_seconds: 0,
        idle_timeout_seconds: 2,
        model_limits: Table::new(),
        prices: Table::new(),
        accounts: vec![account("a"), account("b")],
    }
}

fn pool() -> Pool {
    Pool::new(config()).ok().unwrap()
}

fn asked(model: &str) -> Asked {
    Asked { model: model.to_string(), group: None, session: None, previous: None }
}

fn limit(pool: &mut Pool, idx: usize, reset_at: u64) {
    let mut quotas: Quotas = Table::new();
    quotas.insert(
        "codex-primary".to_string(),
        Window { used_percent: level(100.0), reset_at: Some(reset_at), window_minutes: Some(10080) },
    );
    pool.update_quotas(idx, &quotas);
}

fn answer(action: Action) -> Reply {
    match action {
        Action::Answer(reply) => reply,
        _ => panic!("the request is to be answered"),
    }
}

fn refused(route: Route) -> (u16, String) {
    match route {
        Route::Refused(reply) => (reply.status, reply.code),
        other => panic!("{other:?}"),
    }
}

#[test]
fn requests_need_the_local_token_and_no_browser() {
    let with = |text: &str| vec![header("authorization", text)];
    assert!(authorized(&bearer(), TOKEN));
    assert!(!authorized(&bearer(), "test-client-token-not-a-secreT"));
    assert!(!authorized(&with(&format!("Bearer {TOKEN}x")), TOKEN));
    assert!(!authorized(&with("Bearer test-client-token"), TOKEN));
    assert!(!authorized(&with(&format!("bearer {TOKEN}")), TOKEN));
    assert!(!authorized(&with(TOKEN), TOKEN));
    assert!(!authorized(&vec![], TOKEN));
    assert_eq!(
        refused(route(&vec![], TOKEN, Method::Get, "/status")),
        (401, "unauthorized".to_string())
    );
    let mut browser = bearer();
    browser.push(header("origin", "https://example.com"));
    assert_eq!(
        refused(route(&browser, TOKEN, Method::Get, "/status")),
        (403, "browser_request".to_string())
    );
}

#[test]
fn routes_lead_where_they_should() {
    let to = |method, path: &str| route(&bearer(), TOKEN, method, path);
    assert!(matches!(to(Method::Get, "/health"), Route::Health));
    assert!(matches!(to(Method::Get, "/status"), Route::Status));
    assert!(matches!(to(Method::Post, "/reload"), Route::Reload));
    assert!(matches!(to(Method::Post, "/accounts/a/enabled"), Route::Enabled(name) if name == "a"));
    assert!(matches!(to(Method::Get, "/accounts/a/reset-credits"), Route::Credits(name) if name == "a"));
    assert!(matches!(to(Method::Post, "/accounts/a/reset"), Route::Reset(name) if name == "a"));
    assert_eq!(refused(to(Method::Get, "/accounts/a/enabled")), (405, "method".to_string()));
    assert_eq!(refused(to(Method::Post, "/accounts/a/reset-credits")), (405, "method".to_string()));
    assert_eq!(refused(to(Method::Get, "/accounts/a/reset")), (405, "method".to_string()));
    for path in ["/responses", "/v1/responses", "/backend-api/codex/responses"] {
        assert!(
            matches!(to(Method::Post, path), Route::Inference(endpoint) if endpoint == "/responses")
        );
    }
    assert!(matches!(
        to(Method::Post, "/v1/responses/compact"),
        Route::Inference(endpoint) if endpoint == "/responses/compact"
    ));
    assert!(matches!(to(Method::Get, "/v1/models"), Route::Inference(endpoint) if endpoint == "/models"));
    for (method, path) in [
        (Method::Post, "/v1/models"),
        (Method::Get, "/v1/responses"),
        (Method::Other, "/v1/responses"),
        (Method::Post, "/health"),
        (Method::Get, "/unknown"),
        (Method::Post, "/accounts/enabled"),
    ] {
        assert_eq!(refused(to(method, path)), (404, "route".to_string()), "{path}");
    }
    let mut encoded = bearer();
    encoded.push(header("content-encoding", "gzip"));
    assert_eq!(
        refused(route(&encoded, TOKEN, Method::Post, "/v1/responses")),
        (415, "encoding".to_string())
    );
    let mut plain = bearer();
    plain.push(header("content-encoding", "identity"));
    assert!(matches!(route(&plain, TOKEN, Method::Post, "/v1/responses"), Route::Inference(_)));
}

#[test]
fn control_requests_enable_accounts() {
    let mut pool = pool();
    assert_eq!(pool.switch("a", Some(br#"{"enabled":false}"#)).unwrap(), false);
    assert!(pool.state.accounts[0].disabled);
    assert_eq!(pool.switch("a", Some(br#"{"enabled":true}"#)).unwrap(), true);
    assert!(!pool.state.accounts[0].disabled);
    assert_eq!(pool.switch("nobody", Some(br#"{"enabled":true}"#)).unwrap_err().status, 404);
    assert_eq!(pool.switch("a", Some(b"{}")).unwrap_err().message, "Expected enabled boolean");
    assert_eq!(pool.switch("a", None).unwrap_err().message, "Invalid control body");
    assert_eq!(read_enabled(Some(&json(r#"{"enabled":true}"#))).unwrap(), true);
    assert!(read_enabled(None).is_err());
    assert_eq!(unknown_account().status, 404);
}

#[test]
fn reset_requests_name_a_credit_and_an_attempt() {
    let asked = reset_ask(Some(b"")).unwrap();
    assert!(asked.credit_id.is_none() && asked.request_id.is_none());
    let asked = reset_ask(Some(br#"{"credit_id":"crd_1","request_id":""}"#)).unwrap();
    assert_eq!(asked.credit_id.as_deref(), Some("crd_1"));
    assert_eq!(asked.request_id, None);
    assert_eq!(reset_ask(Some(b"[]")).unwrap_err().message, "Expected a JSON object");
    assert_eq!(reset_ask(None).unwrap_err().message, "Invalid control body");
    assert!(read_reset(Some(&json("{}"))).is_ok());
    assert!(read_reset(None).is_err());
}

#[test]
fn requests_are_taken_with_their_model_group_and_session() {
    let body = br#"{"model":"test","prompt_cache_key":"cache","previous_response_id":"resp"}"#;
    let taken = accept(true, &vec![], Some(body)).unwrap();
    assert_eq!(taken.model, "test");
    assert_eq!(taken.group, None);
    assert_eq!(taken.session.as_deref(), Some("cache"));
    assert_eq!(taken.previous.as_deref(), Some("resp"));
    let headers = vec![
        header("x-tcx-group", "reserved"),
        header("thread_id", "last"),
        header("session-id", ""),
        header("session_id", "second"),
        header("x-client-request-id", "diagnostic-only"),
    ];
    let taken = accept(true, &headers, Some(body)).unwrap();
    assert_eq!(taken.group.as_deref(), Some("reserved"));
    assert_eq!(taken.session.as_deref(), Some("second"));
    let taken = accept(false, &headers, Some(body)).unwrap();
    assert_eq!(taken.model, "");
    assert_eq!(taken.previous, None);
    let code = |body: Option<&[u8]>| {
        let reply = accept(true, &vec![], body).unwrap_err();
        (reply.status, reply.message)
    };
    assert_eq!(code(None), (413, "Request body exceeds 16 MiB".to_string()));
    assert_eq!(code(Some(b"[]")), (400, "Request must be a JSON object".to_string()));
    assert_eq!(code(Some(b"{}")), (400, "A model is required".to_string()));
    let long = format!("{{\"model\":\"{}\"}}", "m".repeat(257));
    assert_eq!(code(Some(long.as_bytes())), (400, "Model name exceeds 256 bytes".to_string()));
    assert!(accept_value(true, &vec![], None).is_err());
}

#[test]
fn a_continued_response_pins_its_account() {
    let mut pool = pool();
    pool.record_stored(1, 200, "complete", Some(&json(r#"{"id":"resp_chain"}"#)), "m", true, 10);
    assert_eq!(pool.pin(None, 10).unwrap(), None);
    assert_eq!(pool.pin(Some("resp_chain"), 10).unwrap(), Some(1));
    let reply = pool.pin(Some("unknown"), 10).unwrap_err();
    assert_eq!((reply.status, reply.code.as_str()), (409, "unknown_previous_response"));
}

#[test]
fn replies_are_json_objects() {
    let reply = error(404, "model_unavailable", "No \"model\"");
    let value = json(&reply.body());
    assert_eq!(value.pointer("error", "code").unwrap().as_str(), Some("model_unavailable"));
    assert_eq!(value.pointer("error", "type").unwrap().as_str(), Some("model_unavailable"));
    assert_eq!(value.pointer("error", "message").unwrap().as_str(), Some("No \"model\""));
    assert!(value.pointer("error", "resets_at").is_none());
    let value = json(&pool_exhausted(Some(77)).body());
    assert_eq!(value.pointer("error", "type").unwrap().as_str(), Some("usage_limit_reached"));
    assert_eq!(value.pointer("error", "code").unwrap().as_str(), Some("pool_exhausted"));
    assert_eq!(value.pointer("error", "resets_at").unwrap().as_u64(), Some(77));
}

#[test]
fn texts_are_escaped_as_json() {
    for code in 0..0x300u32 {
        let text = format!("a{}b", char::from_u32(code).unwrap());
        let body = error(400, "code", &text).body();
        assert!(body.contains(&serde_json::to_string(&text).unwrap()), "{code:x}");
        assert_eq!(json(&body).get("error").unwrap().text_at("message"), Some(text.as_str()));
    }
    assert!(error(400, "c", "\u{1f}\u{8}\"\\\n").body().contains(r#""\u001f\b\"\\\n""#));
}

#[test]
fn a_rejected_call_is_made_once_more() {
    assert!(call_again(401, false));
    assert!(!call_again(401, true));
    assert!(!call_again(200, false));
    assert!(!call_again(403, false));
}

#[test]
fn a_rate_limited_account_is_left_for_the_next() {
    let mut pool = pool();
    let mut attempt = Attempt::new(asked("test"), None);
    assert!(matches!(attempt.advance(&mut pool, 100), Action::Authorize(0)));
    assert!(matches!(
        attempt.authorized(&mut pool, 0, true, 100),
        Action::Send { idx: 0, renewed: false }
    ));
    let headers = vec![header("retry-after", "11")];
    let action = attempt.answered(&mut pool, 0, false, 429, &headers, 100);
    assert!(matches!(action, Action::Authorize(1)));
    assert_eq!(pool.state.accounts[0].hold_until, 111);
    assert_eq!(pool.state.accounts[0].last_error.as_deref(), Some("rate_limited"));
    attempt.authorized(&mut pool, 1, true, 100);
    let action = attempt.answered(&mut pool, 1, false, 200, &vec![], 100);
    assert!(matches!(action, Action::Forward(1)));
    assert_eq!(attempt.tried, [0, 1]);
}

#[test]
fn an_unknown_outcome_is_reported_and_never_sent_again() {
    let mut pool = pool();
    let mut attempt = Attempt::new(asked("test"), None);
    attempt.advance(&mut pool, 100);
    attempt.authorized(&mut pool, 0, true, 100);
    let reply = answer(attempt.failed(&mut pool, 0, Failure::Headers, None, 2001, 100));
    assert_eq!((reply.status, reply.code.as_str()), (502, "upstream_outcome_unknown"));
    assert_eq!(
        reply.message,
        "Upstream request failed before response headers: upstream_response_header_timeout; \
         I/O: unavailable. Elapsed: 2001 ms; timeout: 2 s. \
         Upstream outcome is unknown; request was not replayed"
    );
    assert_eq!(pool.state.recent.len(), 1);
    assert_eq!(pool.state.recent[0].outcome, "upstream_response_header_timeout");
    assert_eq!(pool.state.accounts[0].errors, 1);
    assert_eq!(pool.state.accounts[1].requests, 0);
    assert_eq!(classify_send_error(true, true, true, true), None);
    assert_eq!(classify_send_error(false, true, true, true), Some(Failure::Timeout));
    assert_eq!(classify_send_error(false, false, true, true), Some(Failure::Invalid));
    assert_eq!(classify_send_error(false, false, false, true), Some(Failure::Body));
    assert_eq!(classify_send_error(false, false, false, false), Some(Failure::Transport));
    assert_eq!(Failure::Transport.reason(), "upstream_transport_error");
}

#[test]
fn a_connection_that_fails_is_tried_again_and_then_held() {
    assert_eq!(connect_delay(0), Some(200));
    assert_eq!(connect_delay(1), Some(600));
    assert_eq!(connect_delay(2), None);
    let mut pool = pool();
    let mut attempt = Attempt::new(asked("test"), None);
    attempt.advance(&mut pool, 100);
    attempt.authorized(&mut pool, 0, true, 100);
    assert!(matches!(attempt.unconnected(&mut pool, 0, 100), Action::Authorize(1)));
    assert_eq!(pool.state.accounts[0].hold_until, 101);
    let reply = answer(attempt.unconnected(&mut pool, 1, 100));
    assert_eq!((reply.status, reply.code.as_str()), (503, "upstream_unavailable"));
    assert_eq!(reply.message, "Cannot connect to an eligible upstream");
    assert_eq!(reply.retry_after, Some(1));
}

#[test]
fn a_rejected_token_is_renewed_once() {
    let mut pool = pool();
    let mut attempt = Attempt::new(asked("test"), None);
    attempt.advance(&mut pool, 100);
    attempt.authorized(&mut pool, 0, true, 100);
    let action = attempt.answered(&mut pool, 0, false, 401, &vec![], 100);
    assert!(matches!(action, Action::Renew(0)));
    assert!(matches!(
        attempt.renewed(&mut pool, 0, true, 100),
        Action::Send { idx: 0, renewed: true }
    ));
    let action = attempt.answered(&mut pool, 0, true, 401, &vec![], 100);
    assert!(matches!(action, Action::Authorize(1)));
    assert_eq!(pool.state.accounts[0].last_error.as_deref(), Some("authentication_failed"));
    let reply = answer(attempt.renewed(&mut pool, 1, false, 100));
    assert_eq!(pool.state.accounts[1].last_error.as_deref(), Some("credential_refresh_failed"));
    assert_eq!((reply.status, reply.code.as_str()), (503, "credentials_unavailable"));
    assert_eq!(reply.retry_after, Some(30));
}

#[test]
fn held_accounts_are_reported_as_held() {
    let mut pool = pool();
    limit(&mut pool, 1, 3600);
    let mut attempt = Attempt::new(asked("test"), None);
    assert!(matches!(attempt.advance(&mut pool, 100), Action::Authorize(0)));
    let reply = answer(attempt.authorized(&mut pool, 0, false, 100));
    assert_eq!(reply.code, "credentials_unavailable");
    let reply = answer(Attempt::new(asked("test"), None).advance(&mut pool, 100));
    assert_eq!(reply.code, "credentials_unavailable");
    assert_eq!(reply.retry_after, Some(30));
    assert_eq!(reply.resets_at, None);
    pool.hold(0, 120, "rate_limited");
    let reply = answer(Attempt::new(asked("test"), None).advance(&mut pool, 100));
    assert_eq!((reply.status, reply.code.as_str()), (429, "rate_limited"));
    assert_eq!(reply.kind, "rate_limited");
    pool.hold(0, 120, "connect_failed");
    let reply = answer(Attempt::new(asked("test"), None).advance(&mut pool, 100));
    assert_eq!((reply.status, reply.code.as_str()), (503, "upstream_unavailable"));
}

#[test]
fn an_exhausted_pool_reports_the_earliest_reset() {
    let mut pool = pool();
    limit(&mut pool, 0, 3700);
    limit(&mut pool, 1, 700);
    let reply = answer(Attempt::new(asked("test"), None).advance(&mut pool, 100));
    assert_eq!(reply.status, 429);
    assert_eq!(reply.kind, "usage_limit_reached");
    assert_eq!(reply.code, "pool_exhausted");
    assert_eq!(reply.resets_at, Some(700));
    assert_eq!(reply.retry_after, Some(600));
}

#[test]
fn a_model_that_is_rejected_goes_to_the_next_account() {
    let mut pool = pool();
    let mut attempt = Attempt::new(asked("spark"), None);
    attempt.advance(&mut pool, 100);
    attempt.authorized(&mut pool, 0, true, 100);
    let action = attempt.answered(&mut pool, 0, false, 404, &vec![], 100);
    assert!(matches!(action, Action::Read { idx: 0, status: 404 }));
    let rejection = json(r#"{"error":{"code":"model_not_found"}}"#);
    assert!(attempt.plan_read(&pool, 0, Some(&rejection), 100).is_none());
    let action = attempt.read(&mut pool, 0, 404, Some(&rejection), true, 100);
    assert!(matches!(action, Action::Authorize(1)));
    let action = attempt.read_bytes(
        &mut pool,
        1,
        403,
        br#"{"error":{"code":"model_access_denied"}}"#,
        true,
        100,
    );
    let reply = answer(action);
    assert_eq!((reply.status, reply.code.as_str()), (404, "model_unavailable"));
    assert_eq!(pool.state.recent[0].outcome, "model_unavailable");
    let reply = answer(Attempt::new(asked("spark"), None).advance(&mut pool, 399));
    assert_eq!(reply.code, "model_unavailable");
    assert!(matches!(
        Attempt::new(asked("spark"), None).advance(&mut pool, 400),
        Action::Authorize(_)
    ));
}

#[test]
fn other_rejections_are_handed_on() {
    let mut pool = pool();
    let mut attempt = Attempt::new(asked("spark"), None);
    attempt.advance(&mut pool, 100);
    let action = attempt.read_bytes(
        &mut pool,
        0,
        400,
        br#"{"error":{"code":"unsupported_parameter"}}"#,
        true,
        100,
    );
    assert!(matches!(action, Action::Pass));
    assert_eq!(pool.state.recent[0].outcome, "upstream_rejected");
    assert_eq!(pool.state.accounts[0].unavailable_models.len(), 0);
    let reply = answer(attempt.unread(&mut pool, 0, 100));
    assert_eq!((reply.status, reply.code.as_str()), (502, "response_read_failed"));
    let stream = vec![header("content-type", "text/event-stream")];
    let action = attempt.answered(&mut pool, 0, false, 404, &stream, 100);
    assert!(matches!(action, Action::Forward(0)));
    let mut models = Attempt::new(asked(""), None);
    let action = models.answered(&mut pool, 0, false, 404, &vec![], 100);
    assert!(matches!(action, Action::Forward(0)));
    let action = attempt.answered(&mut pool, 0, false, 503, &vec![], 100);
    assert!(matches!(action, Action::Forward(0)));
}

#[test]
fn windows_of_the_api_close_the_model_they_are_for() {
    let mut pool = pool();
    let mut attempt = Attempt::new(asked("limited"), Some(0));
    attempt.advance(&mut pool, 100);
    let headers = vec![
        header("x-ratelimit-limit-requests", "100"),
        header("x-ratelimit-remaining-requests", "1"),
        header("x-ratelimit-reset-requests", "1m"),
    ];
    attempt.answered(&mut pool, 0, false, 200, &headers, 100);
    let found = *pool.state.accounts[0].quotas.get("api:limited:requests").unwrap();
    assert_eq!((found.used_percent, found.reset_at), (level(99.0), Some(160)));
    let reply = answer(Attempt::new(asked("limited"), Some(0)).advance(&mut pool, 100));
    assert_eq!(reply.code, "pool_exhausted");
    assert!(matches!(
        Attempt::new(asked("other"), Some(0)).advance(&mut pool, 100),
        Action::Authorize(0)
    ));
}

#[test]
fn a_binding_is_stored_before_its_account_is_used() {
    let mut pool = Pool::with_routing(config(), Routing::new(true)).ok().unwrap();
    let mut request = asked("test");
    request.session = Some("session".to_string());
    let mut attempt = Attempt::new(request, None);
    let choice = match attempt.advance(&mut pool, 100) {
        Action::Store(choice) => choice,
        _ => panic!("a record is to be stored"),
    };
    assert_eq!(pool.state.accounts[0].in_flight, 0);
    assert!(matches!(attempt.stored(&mut pool, choice, true, 100), Action::Authorize(0)));
    assert_eq!(pool.state.accounts[0].in_flight, 1);
    let mut request = asked("test");
    request.session = Some("other".to_string());
    let mut attempt = Attempt::new(request, None);
    let choice = match attempt.advance(&mut pool, 100) {
        Action::Store(choice) => choice,
        _ => panic!("a record is to be stored"),
    };
    let reply = answer(attempt.stored(&mut pool, choice, false, 100));
    assert_eq!((reply.status, reply.code.as_str()), (503, "routing_storage_unavailable"));
    let reply = answer(Attempt::new(asked("test"), None).advance(&mut pool, 100));
    assert_eq!(reply.code, "routing_storage_unavailable");
    assert_eq!(reply.retry_after, None);
    assert_eq!(pool.pin(None, 100).unwrap_err().code, "routing_storage_unavailable");
}

#[test]
fn a_reset_is_due_only_for_an_exhausted_pool() {
    let mut settings = config();
    for account in settings.accounts.iter_mut() {
        account.kind = Kind::Chatgpt;
        account.base_url = None;
        account.account_id = Some("id".to_string());
        account.auto_reset = true;
    }
    let mut pool = Pool::new(settings).ok().unwrap();
    let attempt = Attempt::new(asked("test"), None);
    assert_eq!(attempt.reset_due(&pool, 100), None);
    limit(&mut pool, 0, 3700);
    assert_eq!(attempt.reset_due(&pool, 100), None, "another account serves");
    pool.set_enabled("b", false);
    assert_eq!(attempt.reset_due(&pool, 100), Some(0));
}

#[test]
fn a_stream_is_recorded_once() {
    let mut pool = pool();
    let mut observation = observe(0, 200, "test");
    let created = json(r#"{"type":"response.created"}"#);
    assert!(observation.plan(&pool, &created, 100).is_none());
    observation.event(&mut pool, &created, true, 100);
    assert!(!observation.recorded);
    let completed = json(r#"{"type":"response.completed","response":{"id":"resp"}}"#);
    assert!(observation.plan(&pool, &completed, 100).is_some());
    observation.event(&mut pool, &completed, true, 100);
    assert!(observation.recorded);
    assert!(observation.plan(&pool, &completed, 100).is_none());
    observation.end(&mut pool, false, 100);
    observation.abandoned(&mut pool, 100);
    assert_eq!(pool.state.recent.len(), 1);
    assert_eq!(pool.state.recent[0].outcome, "complete");
    assert_eq!(pool.response_account_at("resp", 100), Some(0));
}

#[test]
fn a_stream_that_fails_affects_later_requests() {
    let mut pool = pool();
    let mut observation = observe(0, 200, "spark");
    observation.event(
        &mut pool,
        &json(r#"{"type":"response.failed","response":{"error":{"code":"rate_limit_exceeded","message":"Please try again in 60s."}}}"#),
        true,
        100,
    );
    assert_eq!(pool.state.recent[0].outcome, "stream_rate_limited");
    assert_eq!(pool.state.accounts[0].hold_until, 161);
    assert_eq!(pool.state.accounts[1].hold_until, 0);
    let mut observation = observe(1, 200, "spark");
    observation.event(
        &mut pool,
        &json(r#"{"type":"response.failed","response":{"error":{"code":"model_not_found"}}}"#),
        true,
        100,
    );
    assert_eq!(pool.state.recent[1].outcome, "stream_model_unavailable");
    assert!(pool.select_at("spark", None, None, None, &[], 100).is_none());
    assert!(pool.select_at("other", None, None, None, &[], 100).is_some());
}

#[test]
fn every_end_of_an_answer_has_its_outcome() {
    let mut pool = pool();
    observe(0, 200, "m").end(&mut pool, false, 1);
    observe(0, 200, "m").end(&mut pool, true, 1);
    observe(0, 200, "m").interrupted(&mut pool, 1);
    observe(0, 200, "m").abandoned(&mut pool, 1);
    assert_eq!(observe(0, 200, "m").unread(&mut pool, 1).code, "response_read_failed");
    observe(0, 503, "m").body_bytes(&mut pool, b"original error", true, 1);
    observe(0, 200, "m").body(&mut pool, Some(&json("{}")), true, 1);
    let outcomes: Vec<&str> = pool.state.recent.iter().map(|log| log.outcome.as_str()).collect();
    assert_eq!(
        outcomes,
        [
            "stream_truncated",
            "observation_overflow",
            "stream_transport_failed",
            "client_disconnected",
            "response_read_failed",
            "upstream_rejected",
            "complete",
        ]
    );
    let observation = observe(0, 200, "m");
    assert!(observation.plan_body(&pool, Some(&json(r#"{"id":"r"}"#)), 1).is_some());
    assert!(observation.plan_body(&pool, None, 1).is_none());
}

#[test]
fn request_identifiers_make_no_session() {
    let value = json(r#"{"model":"m","prompt_cache_key":"cache"}"#);
    let session = |headers: Vec<Header>| {
        accept_value(true, &headers, Some(&value)).ok().unwrap().session
    };
    assert_eq!(session(vec![header("x-client-request-id", "id")]), Some("cache".to_string()));
    assert_eq!(
        session(vec![header("x-client-request-id", "id"), header("thread-id", "thread")]),
        Some("thread".to_string())
    );
}
