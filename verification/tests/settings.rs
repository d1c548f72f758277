use teamcodex::config::accept_token;
use teamcodex::config::client_token_env;
use teamcodex::config::credential_ttl;
use teamcodex::config::idle_timeout;
use teamcodex::config::listen;
use teamcodex::config::probe_interval;
use teamcodex::config::threshold;
use teamcodex::config::token_file;
use teamcodex::config::validate_name;
use teamcodex::config::Account;
use teamcodex::config::Config;
use teamcodex::config::ConfigError;
use teamcodex::config::Credential;
use teamcodex::config::Ip;
use teamcodex::config::Kind;
use teamcodex::config::Price;
use teamcodex::config::TokenError;
use teamcodex::config::TokenSource;
use teamcodex::config::Variable;
use teamcodex::json::Json;
use teamcodex::launch::check_group;
use teamcodex::launch::check_health;
use teamcodex::launch::launch;
use teamcodex::launch::provider_config;
use teamcodex::launch::proxied_args;
use teamcodex::launch::Launch;
use teamcodex::launch::LaunchError;
use teamcodex::launch::Probe;
use teamcodex::level::Level;
use teamcodex::login::check_previous;
use teamcodex::login::generate_name;
use teamcodex::login::notice_message;
use teamcodex::login::plan;
use teamcodex::login::read_notice;
use teamcodex::login::register;
use teamcodex::login::row;
use teamcodex::login::LoginError;
use teamcodex::login::Notice;
use teamcodex::oauth::StoredTokens;
use teamcodex::paths::is_absolute;
use teamcodex::paths::join;
use teamcodex::paths::replace_extension;
use teamcodex::url::UrlError;

fn level(value: f64) -> Level {
    Level { bits: value.to_bits() }
}

fn json(text: &str) -> Json {
    Json::parse(text.as_bytes()).unwrap()
}

fn account(name: &str, kind: Kind, credential: Credential) -> Account {
    Account {
        name: name.to_string(),
        kind,
        base_url: None,
        usage_url: None,
        account_id: None,
        user_id: None,
        credential,
        priority: 0,
        disabled: false,
        groups: vec![],
        models: vec![],
        threshold_percent: None,
        auto_reset: false,
    }
}

fn managed() -> Account {
    let mut account = account(
        "personal",
        Kind::Chatgpt,
        Credential::Managed { path: "/tmp/teamcodex/account.json".to_string() },
    );
    account.account_id = Some("workspace-a".to_string());
    account.user_id = Some("user-a".to_string());
    account
}

fn external() -> Account {
    account("external", Kind::Api, Credential::Env { name: "SYNTHETIC_TEST_KEY".to_string() })
}

fn tokens(id: &str) -> StoredTokens {
    StoredTokens {
        access_token: format!("synthetic-access-{id}"),
        refresh_token: format!("synthetic-refresh-{id}"),
        account_id: id.to_string(),
        user_id: "user-a".to_string(),
        expires_at: 3600,
        email: Some("tester@example.test".to_string()),
        retry_after: 0,
        login_required: false,
    }
}

const PATH: &str = "/tmp/teamcodex/config.json";

fn log_in(config: &mut Config, name: Option<&str>, tokens: &StoredTokens) -> Result<String, LoginError> {
    let plan = plan(PATH, &config.accounts, name, tokens)?;
    register(config, PATH, &plan, tokens);
    Ok(plan.name)
}

#[test]
fn managed_accounts_require_complete_identity() {
    let mut config = Config::local("/tmp/teamcodex/config.json");
    config.accounts.push(managed());
    assert!(config.validate().is_ok());
    for value in [None, Some(String::new())] {
        let mut invalid = managed();
        invalid.account_id = value.clone();
        config.accounts[0] = invalid;
        assert!(config.validate().is_err());
        let mut invalid = managed();
        invalid.user_id = value;
        config.accounts[0] = invalid;
        assert!(config.validate().is_err());
    }
    config.accounts[0] = external();
    assert!(config.validate().is_ok());
}

#[test]
fn yolo_exec_keeps_provider_and_yolo_in_exec_parser() {
    let config = Config::local("/tmp/tcx-test/config.json");
    let args = proxied_args(
        &config,
        None,
        vec!["--yolo".to_string(), "exec".to_string(), "hello".to_string()],
    );
    assert_eq!(args[0], "exec");
    assert!(args.iter().any(|value| value == "model_provider=\"teamcodex\""));
    assert_eq!(&args[args.len() - 2..], ["--yolo", "hello"]);
    let interactive = proxied_args(&config, None, vec!["--yolo".to_string()]);
    assert_eq!(interactive.last().unwrap(), "--yolo");
    assert!(!interactive.iter().any(|value| value == "exec"));
}

#[test]
fn a_group_is_a_header_of_the_provider() {
    let config = Config::local(PATH);
    let args = proxied_args(&config, Some("re\"served"), vec!["e".to_string()]);
    assert_eq!(args.len(), 17);
    assert_eq!(args[0], "exec");
    assert_eq!(args[15], "-c");
    assert_eq!(
        args[16],
        "model_providers.teamcodex.http_headers.x-tcx-group=\"re\\\"served\""
    );
    assert_eq!(
        provider_config(&config),
        "model_provider=\"teamcodex\"\n\
         model_providers.teamcodex.name=\"TeamCodex\"\n\
         model_providers.teamcodex.base_url=\"http://127.0.0.1:4269/v1\"\n\
         model_providers.teamcodex.env_key=\"TEAMCODEX_PROXY_TOKEN\"\n\
         model_providers.teamcodex.wire_api=\"responses\"\n\
         model_providers.teamcodex.requires_openai_auth=false\n\
         model_providers.teamcodex.supports_websockets=false\n"
    );
}

#[test]
fn codex_runs_directly_only_without_proxy_and_group() {
    let mut config = Config::local(PATH);
    assert_eq!(check_group(&config, None), Ok(()));
    assert_eq!(check_group(&config, Some("g")), Err(LaunchError::Group));
    config.accounts.push(external());
    config.accounts[0].groups = vec!["g".to_string()];
    assert_eq!(check_group(&config, Some("g")), Ok(()));
    assert_eq!(launch(Probe::Connected, true), Ok(Launch::Proxied));
    assert_eq!(launch(Probe::Refused, false), Ok(Launch::Direct));
    assert_eq!(launch(Probe::Refused, true), Err(LaunchError::GroupWithoutProxy));
    assert_eq!(launch(Probe::Unclear, false), Err(LaunchError::Unknown));
    let healthy = json(r#"{"status":"ok","version":"1"}"#);
    assert_eq!(check_health(true, &healthy), Ok(()));
    assert_eq!(check_health(false, &healthy), Err(LaunchError::Unhealthy));
    assert_eq!(check_health(true, &json(r#"{"status":"ok"}"#)), Err(LaunchError::Service));
    assert_eq!(
        check_health(true, &json(r#"{"status":"bad","version":"1"}"#)),
        Err(LaunchError::Service)
    );
    assert_eq!(LaunchError::Group.message(), "unknown account group");
    assert_eq!(LaunchError::Service.message(), "unexpected service on the proxy port");
}

#[test]
fn every_fault_of_a_configuration_has_its_error() {
    let fault = |change: &dyn Fn(&mut Config)| {
        let mut config = Config::local(PATH);
        config.accounts.push(external());
        change(&mut config);
        config.validate().unwrap_err()
    };
    assert_eq!(fault(&|c| c.listen.ip = Ip::V4(0, 0, 0, 0)), ConfigError::Listen);
    assert_eq!(fault(&|c| c.listen.ip = Ip::V6(0, 0, 0, 0, 0, 0, 0, 2)), ConfigError::Listen);
    assert_eq!(fault(&|c| c.client_token_env = String::new()), ConfigError::ClientTokenEnv);
    assert_eq!(
        fault(&|c| c.client_token_file = Some("relative".to_string())),
        ConfigError::ClientTokenFile
    );
    assert_eq!(fault(&|c| c.threshold_percent = level(0.0)), ConfigError::Threshold);
    assert_eq!(fault(&|c| c.threshold_percent = level(100.5)), ConfigError::Threshold);
    assert_eq!(fault(&|c| c.threshold_percent = level(f64::NAN)), ConfigError::Threshold);
    assert_eq!(fault(&|c| c.idle_timeout_seconds = 0), ConfigError::IdleTimeout);
    assert_eq!(
        fault(&|c| c.prices.insert(
            "m".to_string(),
            Price {
                input_per_million: level(-1.0),
                cached_input_per_million: level(0.0),
                output_per_million: level(0.0),
            }
        )),
        ConfigError::Price
    );
    assert_eq!(fault(&|c| c.accounts[0].name = "a b".to_string()), ConfigError::Name);
    assert_eq!(fault(&|c| c.accounts.push(external())), ConfigError::Duplicate);
    assert_eq!(
        fault(&|c| c.accounts[0].threshold_percent = Some(level(-1.0))),
        ConfigError::AccountThreshold
    );
    let base = |text: &str| fault(&|c| c.accounts[0].base_url = Some(text.to_string()));
    assert_eq!(base("no url"), ConfigError::Url(UrlError::Invalid));
    assert_eq!(base("http://example.com"), ConfigError::Url(UrlError::Insecure));
    assert_eq!(base("https://user@example.com"), ConfigError::Url(UrlError::Extra));
    assert_eq!(base("https://example.com/?q"), ConfigError::Url(UrlError::Extra));
    assert_eq!(base("https://example.com/#f"), ConfigError::Url(UrlError::Extra));
    assert_eq!(
        fault(&|c| c.accounts[0].usage_url = Some("https://example.com/usage".to_string())),
        ConfigError::Origin
    );
    assert_eq!(
        fault(&|c| c.accounts[0].account_id = Some("a\nb".to_string())),
        ConfigError::AccountId
    );
    assert_eq!(
        fault(&|c| {
            c.accounts[0] = managed();
            c.accounts[0].user_id = None;
        }),
        ConfigError::Identity
    );
    assert_eq!(
        fault(&|c| {
            c.accounts[0] = managed();
            c.accounts[0].credential = Credential::Managed { path: "relative".to_string() };
        }),
        ConfigError::ManagedPath
    );
    assert_eq!(
        fault(&|c| {
            c.accounts[0] = managed();
            c.accounts[0].kind = Kind::Api;
        }),
        ConfigError::ManagedKind
    );
    assert_eq!(
        fault(&|c| c.accounts[0].credential = Credential::Env { name: String::new() }),
        ConfigError::CredentialVariable
    );
    assert_eq!(
        fault(&|c| c.accounts[0].credential =
            Credential::Command { argv: vec![], cache_seconds: 1 }),
        ConfigError::CredentialCommand
    );
    assert_eq!(fault(&|c| c.accounts[0].kind = Kind::Chatgpt), ConfigError::ChatgptEnvironment);
    assert_eq!(ConfigError::Listen.message(), "listen address must be loopback");
    assert_eq!(ConfigError::Duplicate.message(), "duplicate account name");
}

#[test]
fn loopback_servers_need_no_encryption() {
    for base in ["http://127.0.0.1:1", "http://127.9.9.9", "http://[::1]:8080", "https://example.com"] {
        let mut config = Config::local(PATH);
        config.accounts.push(external());
        config.accounts[0].base_url = Some(base.to_string());
        assert_eq!(config.validate(), Ok(()), "{base}");
    }
}

#[test]
fn defaults_are_those_of_a_local_proxy() {
    assert_eq!(listen().text, "127.0.0.1:4269");
    assert!(listen().ip.is_loopback());
    assert_eq!(client_token_env(), "TEAMCODEX_PROXY_TOKEN");
    assert_eq!(threshold(), level(95.0));
    assert_eq!(probe_interval(), 60);
    assert_eq!(idle_timeout(), 300);
    assert_eq!(credential_ttl(), 240);
    let config = Config::local(PATH);
    assert_eq!(config.client_token_file.as_deref(), Some("/tmp/teamcodex/config.state/proxy.token"));
    assert_eq!(token_file(PATH), "/tmp/teamcodex/config.state/proxy.token");
    assert_eq!(external().base(), "https://api.openai.com/v1");
    assert_eq!(external().usage(), None);
    assert_eq!(managed().base(), "https://chatgpt.com/backend-api/codex");
    assert_eq!(managed().usage(), Some("https://chatgpt.com/backend-api/wham/usage"));
}

#[test]
fn names_are_short_and_plain() {
    for name in ["a", "A-b_c.9", &"x".repeat(64)] {
        assert_eq!(validate_name(name), Ok(()));
    }
    for name in ["", "a b", "a/b", "é", &"x".repeat(65)] {
        assert_eq!(validate_name(name), Err(ConfigError::Name));
    }
}

#[test]
fn the_client_token_comes_from_variable_or_file() {
    let mut config = Config::local(PATH);
    assert!(matches!(
        config.token_source(Variable::Text("token".to_string())),
        Ok(TokenSource::Given(text)) if text == "token"
    ));
    assert!(matches!(
        config.token_source(Variable::Missing),
        Ok(TokenSource::File(path)) if path == "/tmp/teamcodex/config.state/proxy.token"
    ));
    config.client_token_file = None;
    assert!(matches!(config.token_source(Variable::Missing), Err(TokenError::Missing)));
    assert!(matches!(config.token_source(Variable::Unreadable), Err(TokenError::Unreadable)));
    assert!(accept_token("sixteen-letters!".to_string()).is_ok());
    assert!(matches!(accept_token("short".to_string()), Err(TokenError::Invalid)));
    assert!(matches!(accept_token("sixteen letters!".to_string()), Err(TokenError::Invalid)));
}

#[test]
fn paths_take_another_extension() {
    assert_eq!(replace_extension("/a/b.json", "lock"), "/a/b.lock");
    assert_eq!(replace_extension("/a/b", "lock"), "/a/b.lock");
    assert_eq!(replace_extension("/a/.b", "lock"), "/a/.b.lock");
    assert_eq!(replace_extension("/a.b/c", "lock"), "/a.b/c.lock");
    assert_eq!(replace_extension("/a/b.c.d", "lock"), "/a/b.c.lock");
    assert_eq!(replace_extension("/", "lock"), "/");
    assert_eq!(replace_extension("/a/.", "state"), "/a.state");
    assert_eq!(replace_extension("/a.b/.", "state"), "/a.state");
    let paths = [
        "", ".", "..", "/", "/.", "/..", "./", "./.", "a", "a/", "a/.", "a/./", "a//.//", "a/..",
        "a/../.", "/a/.", "/a/./.", "/a.b/", "/a.b/.", "/a.b.c/./", "/a/.b", "/a/.b/.", "/a/..b",
        "/a/b.", "/a/...", "/a/b..", "..a", "./a.b", "a./.", "/a.bcd/././.", "a.b/c./",
    ];
    for path in paths {
        for extension in ["state", "x.y", ""] {
            let expected = std::path::Path::new(path).with_extension(extension);
            assert_eq!(Some(replace_extension(path, extension).as_str()), expected.to_str());
        }
    }
    assert_eq!(join("/a", "b"), "/a/b");
    assert_eq!(join("/a/", "b"), "/a/b");
    assert_eq!(join("/a", "/b"), "/b");
    assert!(is_absolute("/a"));
    assert!(!is_absolute("a"));
}

#[test]
fn members_of_a_workspace_get_accounts_of_their_own() {
    let mut config = Config::local(PATH);
    let first = tokens("shared-workspace");
    let mut second = tokens("shared-workspace");
    second.user_id = "user-b".to_string();
    second.access_token = "synthetic-second-access".to_string();
    let a = log_in(&mut config, None, &first).unwrap();
    let b = log_in(&mut config, None, &second).unwrap();
    assert_ne!(a, b);
    assert!(a.starts_with("tester_example.test-"));
    assert_eq!(a.len(), 28);
    assert_eq!(log_in(&mut config, Some(&a), &second), Err(LoginError::OtherName));
    assert_eq!(log_in(&mut config, None, &first).unwrap(), a);
    assert_eq!(config.accounts.len(), 2);
    assert_eq!(config.accounts[0].user_id.as_deref(), Some("user-a"));
    assert_eq!(config.accounts[1].user_id.as_deref(), Some("user-b"));
    assert_eq!(config.validate(), Ok(()));
}

#[test]
fn a_login_again_keeps_the_settings_of_an_account() {
    let mut config = Config::local(PATH);
    log_in(&mut config, Some("a"), &tokens("account-a")).unwrap();
    log_in(&mut config, Some("b"), &tokens("account-b")).unwrap();
    config.accounts[0].models = vec!["model-a".to_string()];
    config.accounts[0].priority = 7;
    config.accounts[0].disabled = true;
    assert_eq!(log_in(&mut config, None, &tokens("account-a")).unwrap(), "a");
    assert_eq!(config.accounts.len(), 2);
    assert_eq!(config.accounts[0].priority, 7);
    assert!(config.accounts[0].disabled);
    assert_eq!(config.accounts[0].models, ["model-a"]);
    assert_eq!(
        log_in(&mut config, Some("a"), &tokens("different-account")),
        Err(LoginError::OtherIdentity)
    );
    assert_eq!(
        log_in(&mut config, Some("other-name"), &tokens("account-a")),
        Err(LoginError::OtherName)
    );
    assert_eq!(log_in(&mut config, Some("a b"), &tokens("account-c")), Err(LoginError::Name));
    config.accounts[1].credential = Credential::Env { name: "KEY".to_string() };
    assert_eq!(log_in(&mut config, Some("b"), &tokens("account-b")), Err(LoginError::External));
    assert_eq!(
        LoginError::External.message(),
        "account uses external credentials; use another --name"
    );
}

#[test]
fn a_login_repairs_only_files_of_its_account() {
    let mut config = Config::local(PATH);
    let first = tokens("workspace-a");
    let fresh = plan(PATH, &config.accounts, Some("a"), &first).unwrap();
    assert_eq!(fresh.token_path, "/tmp/teamcodex/config.state/accounts/a.json");
    assert!(!fresh.registered);
    assert_eq!(check_previous(&fresh, None, &first), Err(LoginError::Unregistered));
    assert_eq!(check_previous(&fresh, Some(&tokens("workspace-a")), &first), Ok(()));
    assert_eq!(
        check_previous(&fresh, Some(&tokens("workspace-b")), &first),
        Err(LoginError::StoredIdentity)
    );
    register(&mut config, PATH, &fresh, &first);
    let again = plan(PATH, &config.accounts, Some("a"), &first).unwrap();
    assert!(again.registered);
    assert_eq!(again.token_path, fresh.token_path);
    assert_eq!(check_previous(&again, None, &first), Ok(()));
}

#[test]
fn a_login_without_a_token_file_gets_one() {
    let mut config = Config::local(PATH);
    config.client_token_file = None;
    log_in(&mut config, Some("a"), &tokens("account-a")).unwrap();
    assert_eq!(config.client_token_file.as_deref(), Some("/tmp/teamcodex/config.state/proxy.token"));
}

#[test]
fn generated_names_hold_the_start_of_the_address() {
    let mut owner = tokens("w");
    owner.email = Some(format!("{}@example.test", "long".repeat(20)));
    let name = generate_name(&owner);
    assert_eq!(name.len(), 57);
    assert!(name.starts_with(&"long".repeat(12)));
    owner.email = None;
    assert!(generate_name(&owner).starts_with("account-"));
    let other = tokens("x");
    assert_ne!(generate_name(&tokens("w")), generate_name(&other));
}

#[test]
fn accounts_are_listed_without_secrets() {
    let line = row(&managed(), Some(&tokens("workspace-a")));
    assert_eq!(line.name, "personal");
    assert_eq!(line.account_id.as_deref(), Some("workspace-a"));
    assert_eq!(line.expires_at, Some(3600));
    assert_eq!(line.login_required, Some(false));
    let line = row(&managed(), None);
    assert_eq!(line.expires_at, None);
    assert_eq!(line.login_required, Some(true));
    let line = row(&external(), None);
    assert_eq!(line.login_required, None);
}

#[test]
fn a_running_server_is_told_of_a_login() {
    let loaded = read_notice(true, &json(r#"{"restart_required":true}"#));
    assert!(matches!(loaded, Notice::Loaded { restart_required: true }));
    assert_eq!(
        notice_message("a", &loaded),
        "Account a saved and loaded into the running pool.\n\
         Settings other than accounts changed; restart the server to apply them."
    );
    assert_eq!(
        notice_message("a", &read_notice(true, &json("{}"))),
        "Account a saved and loaded into the running pool."
    );
    assert_eq!(
        notice_message("a", &Notice::Absent),
        "Account a saved. Run tcx server to start the pool."
    );
    assert_eq!(
        notice_message("a", &read_notice(false, &json(r#"{"error":{"message":"no"}}"#))),
        "Account a saved. The running server did not load it: no\n\
         Run tcx reload, or restart the server."
    );
    assert!(matches!(
        read_notice(false, &json("{}")),
        Notice::Refused(reason) if reason == "reload rejected"
    ));
}
