use teamcodex::auth::check_token;
use teamcodex::auth::env_token;
use teamcodex::auth::output_fits;
use teamcodex::auth::refresh_flag;
use teamcodex::auth::AuthError;
use teamcodex::auth::Cache;
use teamcodex::auth::Decision;
use teamcodex::auth::Token;
use teamcodex::config::Account;
use teamcodex::config::Credential;
use teamcodex::config::Kind;
use teamcodex::oauth::authorize_url;
use teamcodex::oauth::callback;
use teamcodex::oauth::callback_page;
use teamcodex::oauth::challenge;
use teamcodex::oauth::claims;
use teamcodex::oauth::exchange_form;
use teamcodex::oauth::from_response;
use teamcodex::oauth::issuer;
use teamcodex::oauth::managed_plan;
use teamcodex::oauth::page_headers;
use teamcodex::oauth::redirect_uri;
use teamcodex::oauth::refresh_form;
use teamcodex::oauth::refusal;
use teamcodex::oauth::renew;
use teamcodex::oauth::Callback;
use teamcodex::oauth::Managed;
use teamcodex::oauth::OauthError;
use teamcodex::oauth::StoredTokens;
use teamcodex::oauth::TokenResponse;
use teamcodex::storage::accept_local_token;
use teamcodex::storage::check_file;
use teamcodex::storage::may_replace;
use teamcodex::storage::random_string;
use teamcodex::storage::read_private;
use teamcodex::storage::PrivateFile;
use teamcodex::storage::StorageError;
use teamcodex::storage::OWNER_ONLY;
use teamcodex::storage::REGULAR;

fn account(kind: Kind, credential: Credential) -> Account {
    Account {
        name: "test".to_string(),
        kind,
        base_url: None,
        usage_url: None,
        account_id: None,
        user_id: None,
        credential,
        priority: 0,
        disabled: false,
        groups: vec![],
        models: vec![],
        threshold_percent: None,
        auto_reset: false,
    }
}

fn command() -> Account {
    account(
        Kind::Api,
        Credential::Command { argv: vec!["helper".to_string()], cache_seconds: 30 },
    )
}

fn token(text: &str) -> Token {
    Token {
        access_token: text.to_string(),
        account_id: None,
        user_id: None,
        expires_at: None,
        generation: 0,
    }
}

fn encode(bytes: &[u8]) -> String {
    base64::Engine::encode(&base64::engine::general_purpose::URL_SAFE_NO_PAD, bytes)
}

fn jwt(account: &str, user: &str, expires_at: u64) -> String {
    let payload = format!(
        "{{\"exp\":{expires_at},\"email\":\"tester@example.test\",\"https://api.openai.com/auth\":{{\"chatgpt_account_id\":\"{account}\",\"chatgpt_user_id\":\"{user}\"}}}}"
    );
    format!("header.{}.signature", encode(payload.as_bytes()))
}

fn stored(expires_at: u64) -> StoredTokens {
    StoredTokens {
        access_token: jwt("workspace-a", "user-a", expires_at),
        refresh_token: "synthetic-refresh-old".to_string(),
        account_id: "workspace-a".to_string(),
        user_id: "user-a".to_string(),
        expires_at,
        email: Some("tester@example.test".to_string()),
        retry_after: 0,
        login_required: false,
    }
}

fn response(access: &str) -> TokenResponse {
    TokenResponse {
        access_token: Some(access.to_string()),
        refresh_token: Some("synthetic-refresh-new".to_string()),
        id_token: None,
        expires_in: None,
    }
}

#[test]
fn a_reload_of_the_same_token_does_not_hide_a_rejection() {
    let account = command();
    let mut cache = Cache::new();
    assert!(matches!(
        cache.decide(&account, None, 100),
        Decision::Load { refresh: false, rejected_token: None }
    ));
    let original = cache.complete(None, Ok(token("synthetic-original")), 100, 100).unwrap();
    assert!(matches!(cache.decide(&account, None, 129), Decision::Use(_)));
    assert!(matches!(cache.decide(&account, None, 130), Decision::Load { .. }));
    let reloaded = cache.complete(None, Ok(token("synthetic-original")), 160, 160).unwrap();
    assert_eq!(original.generation, reloaded.generation);
    match cache.decide(&account, Some(original.generation), 161) {
        Decision::Load { refresh, rejected_token } => {
            assert!(refresh);
            assert_eq!(rejected_token.as_deref(), Some("synthetic-original"));
        }
        _ => panic!("a rejected token is not used again"),
    }
    let rejected = Some(original.generation);
    let refreshed = cache.complete(rejected, Ok(token("synthetic-refreshed")), 161, 161).unwrap();
    assert!(refreshed.generation > original.generation);
    match cache.decide(&account, Some(original.generation), 162) {
        Decision::Use(shared) => assert_eq!(shared.generation, refreshed.generation),
        _ => panic!("one refresh serves all"),
    }
}

#[test]
fn a_failed_source_cools_down() {
    let account = command();
    let mut cache = Cache::new();
    assert!(cache.complete(None, Err(AuthError::Source), 100, 110).is_err());
    assert!(matches!(cache.decide(&account, None, 114), Decision::Cooldown));
    assert!(matches!(cache.decide(&account, None, 115), Decision::Load { .. }));
    assert_eq!(AuthError::Cooldown.message(), "credential source is in cooldown");
}

#[test]
fn tokens_that_do_not_fit_the_account_are_refused() {
    let refused = |account: &Account, token: Token| check_token(account, token, 100).unwrap_err();
    assert_eq!(refused(&command(), token("")), AuthError::AccessToken);
    assert_eq!(refused(&command(), token("with space")), AuthError::AccessToken);
    let mut managed =
        account(Kind::Chatgpt, Credential::Managed { path: "/tmp/a.json".to_string() });
    managed.account_id = Some("workspace-a".to_string());
    managed.user_id = Some("user-a".to_string());
    let mut other = stored(1000).token();
    other.account_id = Some("workspace-b".to_string());
    assert_eq!(refused(&managed, other), AuthError::Account);
    let mut other = stored(1000).token();
    other.user_id = Some("user-b".to_string());
    assert_eq!(refused(&managed, other), AuthError::User);
    assert!(check_token(&managed, stored(1000).token(), 100).is_ok());
    let chatgpt = account(
        Kind::Chatgpt,
        Credential::Command { argv: vec!["helper".to_string()], cache_seconds: 30 },
    );
    assert_eq!(refused(&chatgpt, token("t")), AuthError::AccountRequired);
    let mut broken = token("t");
    broken.account_id = Some("a\nb".to_string());
    assert_eq!(refused(&chatgpt, broken), AuthError::AccountId);
    let mut expired = token("t");
    expired.expires_at = Some(105);
    assert_eq!(refused(&command(), expired), AuthError::Expired);
    let mut fresh = token("t");
    fresh.expires_at = Some(106);
    assert!(check_token(&command(), fresh, 100).is_ok());
    let mut named = command();
    named.account_id = Some("mine".to_string());
    let mut foreign = token("t");
    foreign.account_id = Some("theirs".to_string());
    assert_eq!(check_token(&named, foreign, 100).unwrap().account_id.as_deref(), Some("mine"));
    let from_env = env_token(&named, "secret".to_string());
    assert_eq!(from_env.access_token, "secret");
    assert_eq!(from_env.account_id.as_deref(), Some("mine"));
    assert_eq!(refresh_flag(true), "1");
    assert_eq!(refresh_flag(false), "0");
    assert!(output_fits(65_536));
    assert!(!output_fits(65_537));
}

#[test]
fn stored_tokens_are_checked() {
    assert_eq!(stored(10).validate(), Ok(()));
    let fault = |change: &dyn Fn(&mut StoredTokens)| {
        let mut tokens = stored(10);
        change(&mut tokens);
        tokens.validate().unwrap_err()
    };
    assert_eq!(fault(&|t| t.user_id = String::new()), OauthError::UserIdentity);
    assert_eq!(fault(&|t| t.user_id = "u".repeat(257)), OauthError::UserIdentity);
    assert_eq!(fault(&|t| t.access_token = String::new()), OauthError::AccessToken);
    assert_eq!(fault(&|t| t.access_token = "a".repeat(65_537)), OauthError::AccessToken);
    assert_eq!(fault(&|t| t.refresh_token = "a b".to_string()), OauthError::RefreshToken);
    assert_eq!(fault(&|t| t.account_id = "a\u{7f}".to_string()), OauthError::AccountIdentity);
    let token = stored(10).token();
    assert_eq!(token.account_id.as_deref(), Some("workspace-a"));
    assert_eq!(token.user_id.as_deref(), Some("user-a"));
    assert_eq!(token.expires_at, Some(10));
    assert_eq!(token.generation, 0);
}

#[test]
fn claims_are_the_second_part_of_a_token() {
    let found = claims(&jwt("w", "u", 7)).unwrap();
    assert_eq!(found.u64_at("exp"), Some(7));
    assert_eq!(
        found.pointer("https://api.openai.com/auth", "chatgpt_account_id").unwrap().as_str(),
        Some("w")
    );
    assert!(claims("no parts").is_none());
    assert!(claims("a.!!.c").is_none());
    assert!(claims(&format!("a.{}.c", encode(b"not json"))).is_none());
}

#[test]
fn a_response_gives_tokens_or_says_why_not() {
    let tokens = from_response(response(&jwt("workspace-a", "user-a", 3700)), None, 100).unwrap();
    assert_eq!(tokens.account_id, "workspace-a");
    assert_eq!(tokens.user_id, "user-a");
    assert_eq!(tokens.expires_at, 3700);
    assert_eq!(tokens.refresh_token, "synthetic-refresh-new");
    assert_eq!(tokens.email, None);
    let mut with_id = response(&jwt("workspace-a", "user-a", 3700));
    with_id.id_token = Some(jwt("workspace-a", "user-a", 1));
    let tokens = from_response(with_id, None, 100).unwrap();
    assert_eq!(tokens.email.as_deref(), Some("tester@example.test"));
    let fault = |response: TokenResponse, previous: Option<&StoredTokens>| {
        from_response(response, previous, 100).unwrap_err()
    };
    let mut empty = response("x");
    empty.access_token = None;
    assert_eq!(fault(empty, None), OauthError::NoAccessToken);
    assert_eq!(fault(response("opaque"), None), OauthError::NoAccount);
    let payload = encode(br#"{"https://api.openai.com/auth":{"chatgpt_account_id":"w"}}"#);
    assert_eq!(fault(response(&format!("h.{payload}.s")), None), OauthError::NoUser);
    let old = stored(3600);
    assert_eq!(
        fault(response(&jwt("other-account", "user-a", 3700)), Some(&old)),
        OauthError::IdentityChanged
    );
    assert_eq!(
        fault(response(&jwt("workspace-a", "user-b", 3700)), Some(&old)),
        OauthError::IdentityChanged
    );
    assert_eq!(fault(response("opaque"), Some(&old)), OauthError::NoExpiry);
    assert_eq!(fault(response(&jwt("workspace-a", "user-a", 105)), None), OauthError::Expired);
    let mut no_refresh = response(&jwt("workspace-a", "user-a", 3700));
    no_refresh.refresh_token = None;
    assert_eq!(fault(no_refresh, None), OauthError::NoRefreshToken);
    let mut opaque = response("opaque");
    opaque.expires_in = Some(60);
    let tokens = from_response(opaque, Some(&old), 100).unwrap();
    assert_eq!(tokens.expires_at, 160);
    assert_eq!(tokens.account_id, "workspace-a");
    assert_eq!(tokens.email.as_deref(), Some("tester@example.test"));
}

#[test]
fn a_managed_token_is_renewed_early_and_rarely() {
    assert!(matches!(managed_plan(&stored(401), None, 100), Managed::Use(_)));
    assert!(matches!(managed_plan(&stored(400), None, 100), Managed::Refresh));
    let rejected = stored(4000).access_token;
    assert!(matches!(managed_plan(&stored(4000), Some(&rejected), 100), Managed::Refresh));
    assert!(matches!(managed_plan(&stored(4000), Some("other"), 100), Managed::Use(_)));
    let mut waiting = stored(200);
    waiting.retry_after = 130;
    assert!(matches!(managed_plan(&waiting, None, 100), Managed::Use(_)));
    assert!(matches!(managed_plan(&waiting, None, 130), Managed::Refresh));
    let mut late = stored(105);
    late.retry_after = 130;
    assert!(matches!(
        managed_plan(&late, None, 100),
        Managed::Refuse(OauthError::Cooldown)
    ));
    let mut lost = stored(4000);
    lost.login_required = true;
    assert!(matches!(
        managed_plan(&lost, None, 100),
        Managed::Refuse(OauthError::LoginExpired)
    ));
    assert!(OauthError::LoginExpired.message().contains("tcx login"));
}

#[test]
fn a_renewal_replaces_keeps_or_gives_up_tokens() {
    let renewal = renew(stored(200), None, Ok(response(&jwt("workspace-a", "user-a", 3700))), 100);
    assert_eq!(renewal.save.refresh_token, "synthetic-refresh-new");
    assert_eq!(renewal.token.unwrap().expires_at, Some(3700));
    let mut kept = response(&jwt("workspace-a", "user-a", 3700));
    kept.refresh_token = None;
    let renewal = renew(stored(200), None, Ok(kept), 100);
    assert_eq!(renewal.save.refresh_token, "synthetic-refresh-old");
    let renewal = renew(stored(200), None, Err(false), 100);
    assert_eq!(renewal.save.retry_after, 130);
    assert!(!renewal.save.login_required);
    assert_eq!(renewal.token.unwrap().expires_at, Some(200));
    let rejected = stored(200).access_token;
    let renewal = renew(stored(200), Some(&rejected), Err(false), 100);
    assert_eq!(renewal.token.unwrap_err(), OauthError::Unavailable);
    let renewal = renew(stored(200), None, Err(true), 100);
    assert!(renewal.save.login_required);
    assert_eq!(renewal.token.unwrap_err(), OauthError::LoginExpired);
    let renewal = renew(stored(200), None, Ok(response(&jwt("other-account", "user-a", 3700))), 100);
    assert!(renewal.save.login_required);
    assert_eq!(renewal.save.refresh_token, "synthetic-refresh-old");
    assert_eq!(renewal.token.unwrap_err(), OauthError::InvalidRefresh);
}

#[test]
fn lost_refresh_tokens_are_told_from_faults() {
    for code in
        ["invalid_grant", "refresh_token_expired", "refresh_token_reused", "refresh_token_invalidated"]
    {
        for status in [400, 401, 403] {
            assert!(refusal(status, format!("{{\"error\":\"{code}\"}}").as_bytes()));
            assert!(refusal(status, format!("{{\"error\":{{\"code\":\"{code}\"}}}}").as_bytes()));
            assert!(refusal(status, format!("{{\"code\":\"{code}\"}}").as_bytes()));
        }
        assert!(!refusal(500, format!("{{\"error\":\"{code}\"}}").as_bytes()));
    }
    assert!(!refusal(400, br#"{"error":"invalid_client"}"#));
    assert!(!refusal(400, b"private-response-must-not-appear"));
}

#[test]
fn a_login_is_asked_for_with_a_challenge() {
    assert_eq!(issuer(), "https://auth.openai.com");
    assert_eq!(redirect_uri(1455), "http://localhost:1455/auth/callback");
    let code = challenge("dBjftJeZ4CVP-mB92K27uhbUJU1p1r_wW1gFWFOEjXk");
    assert_eq!(code, "E9Melhoa2OwvFrEMTJguCHaoeK1t8URWbuGJSstw-cM");
    let verifier = "dBjftJeZ4CVP-mB92K27uhbUJU1p1r_wW1gFWFOEjXk";
    let url = authorize_url(issuer(), 1455, verifier, "the state").unwrap();
    let parsed = reqwest::Url::parse(&url).unwrap();
    assert_eq!(parsed.path(), "/oauth/authorize");
    let pairs: Vec<(String, String)> = parsed.query_pairs().into_owned().collect();
    let value = |name: &str| pairs.iter().find(|pair| pair.0 == name).unwrap().1.clone();
    assert_eq!(pairs.len(), 10);
    assert_eq!(value("code_challenge"), code);
    assert_eq!(value("code_challenge_method"), "S256");
    assert_eq!(value("state"), "the state");
    assert_eq!(value("redirect_uri"), "http://localhost:1455/auth/callback");
    assert!(value("scope").contains("offline_access"));
    assert_eq!(authorize_url("no url", 1455, verifier, "s"), None);
    let form = exchange_form("code", "verifier", "uri");
    assert_eq!(form[0], ("grant_type".to_string(), "authorization_code".to_string()));
    assert_eq!(form[2], ("code".to_string(), "code".to_string()));
    assert_eq!(form[3], ("code_verifier".to_string(), "verifier".to_string()));
    let form = refresh_form(&stored(10));
    assert_eq!(form[1], ("grant_type".to_string(), "refresh_token".to_string()));
    assert_eq!(form[2], ("refresh_token".to_string(), "synthetic-refresh-old".to_string()));
}

#[test]
fn only_the_callback_of_this_login_is_taken() {
    let call = |host: Option<&str>, origin: bool, uri: &str| callback(host, origin, uri, 1455, "right");
    let local = Some("localhost:1455");
    assert!(matches!(
        call(local, false, "/auth/callback?state=right&code=synthetic-code"),
        Callback::Code(code) if code == "synthetic-code"
    ));
    assert!(matches!(
        call(Some("127.0.0.1:1455"), false, "/auth/callback?code=a%20b&state=right"),
        Callback::Code(code) if code == "a b"
    ));
    assert!(matches!(
        call(local, false, "/auth/callback?state=right&error=access_denied"),
        Callback::Denied
    ));
    assert!(matches!(call(local, false, "/auth/callback?state=wrong&code=c"), Callback::State));
    assert!(matches!(call(local, false, "/auth/callback?code=c"), Callback::State));
    assert!(matches!(
        call(local, false, "/auth/callback?state=right&state=other&code=c"),
        Callback::State
    ));
    for uri in [
        "/auth/callback?state=right&code=a&code=b",
        "/auth/callback?state=right&code=a&error=b",
        "/auth/callback?state=right&code=",
        "/auth/callback?state=right",
    ] {
        assert!(matches!(call(local, false, uri), Callback::Invalid), "{uri}");
    }
    let long = format!("/auth/callback?state=right&code={}", "c".repeat(4097));
    assert!(matches!(call(local, false, &long), Callback::Invalid));
    let good = "/auth/callback?state=right&code=c";
    assert!(matches!(call(local, true, good), Callback::Invalid));
    assert!(matches!(call(Some("example.invalid"), false, good), Callback::Invalid));
    assert!(matches!(call(Some("localhost:1456"), false, good), Callback::Invalid));
    assert!(matches!(call(None, false, good), Callback::Invalid));
    assert_eq!(callback_page(&Callback::Invalid, true), (400, "Invalid login callback."));
    assert_eq!(callback_page(&Callback::State, true), (400, "Invalid login state."));
    assert_eq!(
        callback_page(&Callback::Denied, false),
        (409, "Login callback already received.")
    );
    assert_eq!(callback_page(&Callback::Code("c".to_string()), true).0, 200);
    assert_eq!(page_headers()[0], ("cache-control".to_string(), "no-store".to_string()));
}

#[test]
fn private_files_are_regular_and_for_their_owner() {
    assert_eq!(check_file(true, Some(0o100600)), Ok(()));
    assert_eq!(check_file(true, None), Ok(()));
    assert_eq!(check_file(true, Some(0o100644)), Err(StorageError::Permissions));
    assert_eq!(check_file(true, Some(0o100601)), Err(StorageError::Permissions));
    assert_eq!(check_file(false, Some(0o100600)), Err(StorageError::Irregular));
    let mode = Some(REGULAR | OWNER_ONLY);
    let file = |bytes: Vec<u8>| PrivateFile { regular: true, mode, bytes };
    assert_eq!(read_private(file(b"value".to_vec())).unwrap(), b"value");
    assert_eq!(read_private(file(vec![0; 1_048_577])).err(), Some(StorageError::TooLarge));
    assert!(may_replace(false, false, false));
    assert!(may_replace(true, true, false));
    assert!(!may_replace(true, false, false));
    assert!(!may_replace(true, true, true));
    assert_eq!(StorageError::Random.message(), "secure random generation failed");
}

#[test]
fn random_texts_are_local_tokens() {
    let first = random_string().unwrap();
    let second = random_string().unwrap();
    assert_eq!(first.len(), 43);
    assert_ne!(first, second);
    assert_eq!(accept_local_token(Some(first.clone())).unwrap(), first);
    assert_eq!(accept_local_token(Some("short".to_string())).err(), Some(StorageError::Token));
    assert_eq!(accept_local_token(None).err(), Some(StorageError::Token));
}
