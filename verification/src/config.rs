//! The configuration of a pool: its accounts, and the settings they share.
use crate::headers::is_header_value;
use crate::level::Level;
use crate::level::NINETY_FIVE;
use crate::paths::is_absolute;
use crate::paths::join;
use crate::paths::replace_extension;
use crate::table::Table;
use crate::text::byte_len;
use crate::text::chars_of;
use crate::text::concat;
use crate::text::copy_all;
use crate::text::copy_option;
use crate::text::is_visible_ascii;
use crate::text::options_same;
use crate::text::owned;
use crate::text::same;
use crate::text::strip_suffix;
use crate::text::trim_end_matches;
use crate::url::UrlError;
use vstd::prelude::*;

verus! {

/// The address of an interface.
#[derive(Clone, Copy, Debug, PartialEq, Eq, Structural)]
pub enum Ip {
    V4(u8, u8, u8, u8),
    V6(u16, u16, u16, u16, u16, u16, u16, u16),
}

impl Ip {
    /// A loopback address: `127.0.0.0/8` or `::1`.
    pub open spec fn loopback(self) -> bool {
        match self {
            Ip::V4(first, _, _, _) => first == 127,
            Ip::V6(a, b, c, d, e, f, g, h) => a == 0 && b == 0 && c == 0 && d == 0 && e == 0 && f
                == 0 && g == 0 && h == 1,
        }
    }

    /// Whether this is a loopback address.
    pub fn is_loopback(self) -> (yes: bool)
        ensures
            yes == self.loopback(),
    {
        match self {
            Ip::V4(first, _, _, _) => first == 127,
            Ip::V6(a, b, c, d, e, f, g, h) => a == 0 && b == 0 && c == 0 && d == 0 && e == 0 && f
                == 0 && g == 0 && h == 1,
        }
    }
}

/// Where the proxy listens: the address, and the text of address and port.
#[derive(Debug)]
pub struct Listen {
    pub ip: Ip,
    pub text: String,
}

/// What a price per million tokens is, in USD.
#[derive(Clone, Copy, Debug, PartialEq, Eq, Structural)]
pub struct Price {
    pub input_per_million: Level,
    pub cached_input_per_million: Level,
    pub output_per_million: Level,
}

/// What kind of upstream an account is for.
#[derive(Clone, Copy, Debug, PartialEq, Eq, Structural)]
pub enum Kind {
    Chatgpt,
    Api,
}

/// Where the token of an account comes from.
#[derive(Debug)]
pub enum Credential {
    Managed { path: String },
    Env { name: String },
    Command { argv: Vec<String>, cache_seconds: u64 },
}

/// What a credential holds.
pub enum CredentialView {
    Managed { path: Seq<char> },
    Env { name: Seq<char> },
    Command { argv: Seq<Seq<char>>, cache_seconds: u64 },
}

impl View for Credential {
    type V = CredentialView;

    open spec fn view(&self) -> CredentialView {
        match self {
            Credential::Managed { path } => CredentialView::Managed { path: path@ },
            Credential::Env { name } => CredentialView::Env { name: name@ },
            Credential::Command { argv, cache_seconds } => CredentialView::Command {
                argv: crate::text::views(argv@),
                cache_seconds: *cache_seconds,
            },
        }
    }
}

/// An account of the pool.
#[derive(Debug)]
pub struct Account {
    pub name: String,
    pub kind: Kind,
    pub base_url: Option<String>,
    pub usage_url: Option<String>,
    pub account_id: Option<String>,
    pub user_id: Option<String>,
    pub credential: Credential,
    pub priority: i32,
    pub disabled: bool,
    pub groups: Vec<String>,
    pub models: Vec<String>,
    /// Takes the place of the threshold of the configuration.
    pub threshold_percent: Option<Level>,
    /// Redeem a reset credit when this account is the only limited candidate for a request.
    pub auto_reset: bool,
}

/// What an account holds.
pub struct AccountView {
    pub name: Seq<char>,
    pub kind: Kind,
    pub base_url: Option<Seq<char>>,
    pub usage_url: Option<Seq<char>>,
    pub account_id: Option<Seq<char>>,
    pub user_id: Option<Seq<char>>,
    pub credential: CredentialView,
    pub priority: i32,
    pub disabled: bool,
    pub groups: Seq<Seq<char>>,
    pub models: Seq<Seq<char>>,
    pub threshold_percent: Option<Level>,
    pub auto_reset: bool,
}

impl View for Account {
    type V = AccountView;

    open spec fn view(&self) -> AccountView {
        AccountView {
            name: self.name@,
            kind: self.kind,
            base_url: crate::text::option_view(self.base_url),
            usage_url: crate::text::option_view(self.usage_url),
            account_id: crate::text::option_view(self.account_id),
            user_id: crate::text::option_view(self.user_id),
            credential: self.credential@,
            priority: self.priority,
            disabled: self.disabled,
            groups: crate::text::views(self.groups@),
            models: crate::text::views(self.models@),
            threshold_percent: self.threshold_percent,
            auto_reset: self.auto_reset,
        }
    }
}

impl AccountView {
    /// The base URL, without slashes at its end.
    pub open spec fn base(self) -> Seq<char> {
        crate::text::without_trailing(
            match self.base_url {
                Some(url) => url,
                None => match self.kind {
                    Kind::Chatgpt => "https://chatgpt.com/backend-api/codex"@,
                    Kind::Api => "https://api.openai.com/v1"@,
                },
            },
            '/',
        )
    }

    /// The usage endpoint.
    pub open spec fn usage(self) -> Option<Seq<char>> {
        match self.usage_url {
            Some(url) => Some(url),
            None => if self.kind == Kind::Chatgpt && self.base_url is None {
                Some("https://chatgpt.com/backend-api/wham/usage"@)
            } else {
                None
            },
        }
    }

    /// This text is the endpoint of reset credits: it stands next to the usage endpoint.
    pub open spec fn is_reset_credits(self, url: Seq<char>) -> bool {
        &&& self.kind == Kind::Chatgpt
        &&& exists|base: Seq<char>|
            self.usage() == Some(#[trigger] (base + "/usage"@)) && url == base
                + "/rate-limit-reset-credits"@
    }

    /// The account has an endpoint of reset credits.
    pub open spec fn has_reset_credits(self) -> bool {
        self.kind == Kind::Chatgpt && match self.usage() {
            Some(url) => "/usage"@.is_suffix_of(url),
            None => false,
        }
    }

    /// The share of a limit from which the account is not selected.
    pub open spec fn threshold(self, default: Level) -> Level {
        match self.threshold_percent {
            Some(level) => level,
            None => default,
        }
    }
}

/// The settings that the accounts share.
pub struct Config {
    pub listen: Listen,
    pub client_token_env: String,
    pub client_token_file: Option<String>,
    pub threshold_percent: Level,
    pub probe_interval_seconds: u64,
    pub idle_timeout_seconds: u64,
    pub model_limits: Table<Vec<String>>,
    pub prices: Table<Price>,
    pub accounts: Vec<Account>,
}

/// What a configuration holds besides its accounts.
#[verifier::ext_equal]
pub struct SettingsView {
    pub ip: Ip,
    pub listen: Seq<char>,
    pub client_token_env: Seq<char>,
    pub client_token_file: Option<Seq<char>>,
    pub threshold_percent: Level,
    pub probe_interval_seconds: u64,
    pub idle_timeout_seconds: u64,
    pub model_limits: Map<Seq<char>, Seq<Seq<char>>>,
    pub prices: Map<Seq<char>, Price>,
}

/// What a configuration holds.
#[verifier::ext_equal]
pub struct ConfigView {
    pub settings: SettingsView,
    pub accounts: Seq<AccountView>,
}

/// What accounts hold.
pub open spec fn account_views(accounts: Seq<Account>) -> Seq<AccountView> {
    accounts.map_values(|account: Account| account@)
}

/// The limits that models have.
pub open spec fn limit_views(limits: Map<Seq<char>, Vec<String>>) -> Map<Seq<char>, Seq<Seq<char>>> {
    limits.map_values(|ids: Vec<String>| crate::text::views(ids@))
}

impl View for Config {
    type V = ConfigView;

    open spec fn view(&self) -> ConfigView {
        ConfigView {
            settings: SettingsView {
                ip: self.listen.ip,
                listen: self.listen.text@,
                client_token_env: self.client_token_env@,
                client_token_file: crate::text::option_view(self.client_token_file),
                threshold_percent: self.threshold_percent,
                probe_interval_seconds: self.probe_interval_seconds,
                idle_timeout_seconds: self.idle_timeout_seconds,
                model_limits: limit_views(self.model_limits@),
                prices: self.prices@,
            },
            accounts: account_views(self.accounts@),
        }
    }
}

/// What is wrong with a configuration.
#[derive(Clone, Copy, Debug, PartialEq, Eq, Structural)]
pub enum ConfigError {
    Listen,
    ClientTokenEnv,
    ClientTokenFile,
    Threshold,
    IdleTimeout,
    Price,
    Name,
    Duplicate,
    AccountThreshold,
    Url(UrlError),
    Origin,
    AccountId,
    Identity,
    ManagedPath,
    ManagedKind,
    CredentialVariable,
    CredentialCommand,
    ChatgptEnvironment,
}

/// What is told of an error.
pub open spec fn error_text(error: ConfigError) -> Seq<char> {
    match error {
        ConfigError::Listen => "listen address must be loopback"@,
        ConfigError::ClientTokenEnv => "client_token_env is required"@,
        ConfigError::ClientTokenFile => "client_token_file must be an absolute path"@,
        ConfigError::Threshold => "threshold_percent must be in (0, 100]"@,
        ConfigError::IdleTimeout => "idle timeout must be positive"@,
        ConfigError::Price => "prices must be finite and nonnegative"@,
        ConfigError::Name =>
            "account names must contain 1-64 letters, digits, dots, underscores, or hyphens"@,
        ConfigError::Duplicate => "duplicate account name"@,
        ConfigError::AccountThreshold => "account threshold_percent must be in (0, 100]"@,
        ConfigError::Url(UrlError::Invalid) => "invalid upstream URL"@,
        ConfigError::Url(UrlError::Insecure) =>
            "upstreams require HTTPS; HTTP is allowed only for loopback test servers"@,
        ConfigError::Url(UrlError::Extra) =>
            "upstream URLs must not contain credentials, queries, or fragments"@,
        ConfigError::Origin => "usage URL must have the same origin as the account base URL"@,
        ConfigError::AccountId => "invalid account_id"@,
        ConfigError::Identity => "managed credentials require account_id and user_id"@,
        ConfigError::ManagedPath => "managed credential path must be absolute"@,
        ConfigError::ManagedKind => "managed OAuth credentials require a ChatGPT account"@,
        ConfigError::CredentialVariable => "credential variable is required"@,
        ConfigError::CredentialCommand => "credential command is required"@,
        ConfigError::ChatgptEnvironment => "ChatGPT environment credentials require account_id"@,
    }
}

impl ConfigError {
    /// What is told of the error.
    pub fn message(self) -> (text: &'static str)
        ensures
            text@ == error_text(self),
    {
        match self {
            ConfigError::Listen => "listen address must be loopback",
            ConfigError::ClientTokenEnv => "client_token_env is required",
            ConfigError::ClientTokenFile => "client_token_file must be an absolute path",
            ConfigError::Threshold => "threshold_percent must be in (0, 100]",
            ConfigError::IdleTimeout => "idle timeout must be positive",
            ConfigError::Price => "prices must be finite and nonnegative",
            ConfigError::Name =>
                "account names must contain 1-64 letters, digits, dots, underscores, or hyphens",
            ConfigError::Duplicate => "duplicate account name",
            ConfigError::AccountThreshold => "account threshold_percent must be in (0, 100]",
            ConfigError::Url(UrlError::Invalid) => "invalid upstream URL",
            ConfigError::Url(UrlError::Insecure) =>
                "upstreams require HTTPS; HTTP is allowed only for loopback test servers",
            ConfigError::Url(UrlError::Extra) =>
                "upstream URLs must not contain credentials, queries, or fragments",
            ConfigError::Origin => "usage URL must have the same origin as the account base URL",
            ConfigError::AccountId => "invalid account_id",
            ConfigError::Identity => "managed credentials require account_id and user_id",
            ConfigError::ManagedPath => "managed credential path must be absolute",
            ConfigError::ManagedKind => "managed OAuth credentials require a ChatGPT account",
            ConfigError::CredentialVariable => "credential variable is required",
            ConfigError::CredentialCommand => "credential command is required",
            ConfigError::ChatgptEnvironment => "ChatGPT environment credentials require account_id",
        }
    }
}

/// The address that the proxy listens on by default.
pub fn listen() -> (listen: Listen)
    ensures
        listen.ip == Ip::V4(127, 0, 0, 1),
        listen.text@ == "127.0.0.1:4269"@,
{
    Listen { ip: Ip::V4(127, 0, 0, 1), text: owned("127.0.0.1:4269") }
}

/// The variable that holds the local proxy token by default.
pub fn client_token_env() -> (name: String)
    ensures
        name@ == "TEAMCODEX_PROXY_TOKEN"@,
{
    owned("TEAMCODEX_PROXY_TOKEN")
}

/// The default threshold, 95 percent.
pub fn threshold() -> (level: Level)
    ensures
        level == (Level { bits: NINETY_FIVE }),
        level.threshold(),
{
    Level { bits: NINETY_FIVE }
}

/// The default interval between two probes, in seconds.
pub fn probe_interval() -> (seconds: u64)
    ensures
        seconds == 60,
{
    60
}

/// The default limit of inactivity of an upstream, in seconds.
pub fn idle_timeout() -> (seconds: u64)
    ensures
        seconds == 300,
{
    300
}

/// How long the token of a command is kept by default, in seconds.
pub fn credential_ttl() -> (seconds: u64)
    ensures
        seconds == 240,
{
    240
}

/// A character of an account's name.
pub open spec fn is_name_char(letter: char) -> bool {
    'A' <= letter <= 'Z' || 'a' <= letter <= 'z' || '0' <= letter <= '9' || letter == '-' || letter
        == '_' || letter == '.'
}

/// A name that an account can have.
pub open spec fn valid_name(name: Seq<char>) -> bool {
    &&& 1 <= name.len() <= 64
    &&& forall|i: int| 0 <= i < name.len() ==> is_name_char(#[trigger] name[i])
}

/// Whether a character can stand in an account's name.
pub fn name_char(letter: char) -> (yes: bool)
    ensures
        yes == is_name_char(letter),
{
    ('A' <= letter && letter <= 'Z') || ('a' <= letter && letter <= 'z') || ('0' <= letter
        && letter <= '9') || letter == '-' || letter == '_' || letter == '.'
}

/// Checks the name of an account.
pub fn validate_name(name: &str) -> (result: Result<(), ConfigError>)
    ensures
        result == if valid_name(name@) {
            Ok::<(), ConfigError>(())
        } else {
            Err(ConfigError::Name)
        },
{
    let chars = chars_of(name);
    if chars.len() == 0 || chars.len() > 64 {
        return Err(ConfigError::Name);
    }
    let mut i: usize = 0;
    while i < chars.len()
        invariant
            i <= chars@.len(),
            chars@ == name@,
            1 <= chars@.len() <= 64,
            forall|k: int| 0 <= k < i ==> is_name_char(#[trigger] chars@[k]),
        decreases chars@.len() - i,
    {
        if !name_char(chars[i]) {
            assert(!is_name_char(name@[i as int]));
            return Err(ConfigError::Name);
        }
        i = i + 1;
    }
    Ok(())
}

/// An identity of a managed account: not empty, and at most 256 bytes long.
pub open spec fn bounded_id(id: Option<Seq<char>>) -> bool {
    id matches Some(text) && 0 < crate::text::utf8(text).len() <= 256
}

fn is_bounded_id(id: &Option<String>) -> (yes: bool)
    ensures
        yes == bounded_id(crate::text::option_view(*id)),
{
    match id {
        Some(text) => {
            let length: usize = byte_len(text.as_str());
            0 < length && length <= 256
        },
        None => false,
    }
}

/// What is wrong with the credential of an account.
pub open spec fn credential_error(account: AccountView) -> Option<ConfigError> {
    match account.credential {
        CredentialView::Managed { path } => if !bounded_id(account.account_id) || !bounded_id(
            account.user_id,
        ) {
            Some(ConfigError::Identity)
        } else if !crate::paths::absolute(path) {
            Some(ConfigError::ManagedPath)
        } else if account.kind != Kind::Chatgpt {
            Some(ConfigError::ManagedKind)
        } else {
            None
        },
        CredentialView::Env { name } => if name.len() == 0 {
            Some(ConfigError::CredentialVariable)
        } else if account.kind == Kind::Chatgpt && account.account_id is None {
            Some(ConfigError::ChatgptEnvironment)
        } else {
            None
        },
        CredentialView::Command { argv, cache_seconds } => if argv.len() == 0 || argv[0].len()
            == 0 {
            Some(ConfigError::CredentialCommand)
        } else {
            None
        },
    }
}

/// What is wrong with the URLs of an account.
pub open spec fn upstream_error(account: AccountView) -> Option<ConfigError> {
    let base = crate::url::url_parts(account.base());
    match crate::url::url_error(base) {
        Some(error) => Some(ConfigError::Url(error)),
        None => match account.usage() {
            Some(url) => {
                let usage = crate::url::url_parts(url);
                match crate::url::url_error(usage) {
                    Some(error) => Some(ConfigError::Url(error)),
                    None => if crate::url::same_origin(usage->Some_0, base->Some_0) {
                        None
                    } else {
                        Some(ConfigError::Origin)
                    },
                }
            },
            None => None,
        },
    }
}

/// An identity that can be sent to an upstream.
pub open spec fn sendable_id(id: Option<Seq<char>>) -> bool {
    match id {
        Some(text) => text.len() > 0 && crate::headers::header_value(text),
        None => true,
    }
}

/// What is wrong with an account, given the accounts before it.
pub open spec fn account_error(
    account: AccountView,
    earlier: Seq<AccountView>,
) -> Option<ConfigError> {
    if !valid_name(account.name) {
        Some(ConfigError::Name)
    } else if named(earlier, account.name) {
        Some(ConfigError::Duplicate)
    } else if account.threshold_percent matches Some(level) && !level.threshold() {
        Some(ConfigError::AccountThreshold)
    } else if upstream_error(account) is Some {
        upstream_error(account)
    } else if !sendable_id(account.account_id) {
        Some(ConfigError::AccountId)
    } else {
        credential_error(account)
    }
}

/// Some account has this name.
pub open spec fn named(accounts: Seq<AccountView>, name: Seq<char>) -> bool {
    exists|i: int| 0 <= i < accounts.len() && (#[trigger] accounts[i]).name == name
}

/// What is wrong with the first account that has something wrong with it.
pub open spec fn accounts_error(accounts: Seq<AccountView>) -> Option<ConfigError>
    decreases accounts.len(),
{
    if accounts.len() == 0 {
        None
    } else {
        match accounts_error(accounts.drop_last()) {
            Some(error) => Some(error),
            None => account_error(accounts.last(), accounts.drop_last()),
        }
    }
}

/// A price that is finite and not negative.
pub open spec fn valid_price(price: Price) -> bool {
    price.input_per_million.usable() && price.cached_input_per_million.usable()
        && price.output_per_million.usable()
}

/// What is wrong with the settings.
pub open spec fn settings_error(settings: SettingsView) -> Option<ConfigError> {
    if !settings.ip.loopback() {
        Some(ConfigError::Listen)
    } else if settings.client_token_env.len() == 0 {
        Some(ConfigError::ClientTokenEnv)
    } else if settings.client_token_file matches Some(path) && !crate::paths::absolute(path) {
        Some(ConfigError::ClientTokenFile)
    } else if !settings.threshold_percent.threshold() {
        Some(ConfigError::Threshold)
    } else if settings.idle_timeout_seconds == 0 {
        Some(ConfigError::IdleTimeout)
    } else if exists|model: Seq<char>|
        settings.prices.contains_key(model) && !valid_price(#[trigger] settings.prices[model]) {
        Some(ConfigError::Price)
    } else {
        None
    }
}

impl ConfigView {
    /// What is wrong with a configuration: the first problem, settings before accounts.
    pub open spec fn error(self) -> Option<ConfigError> {
        match settings_error(self.settings) {
            Some(error) => Some(error),
            None => accounts_error(self.accounts),
        }
    }
}

impl Credential {
    /// A copy.
    pub fn copy(&self) -> (copy: Credential)
        ensures
            copy@ == self@,
    {
        match self {
            Credential::Managed { path } => Credential::Managed { path: path.clone() },
            Credential::Env { name } => Credential::Env { name: name.clone() },
            Credential::Command { argv, cache_seconds } => Credential::Command {
                argv: copy_all(argv),
                cache_seconds: *cache_seconds,
            },
        }
    }

    /// Whether two credentials are the same.
    pub fn same(&self, other: &Credential) -> (yes: bool)
        ensures
            yes == (self@ == other@),
    {
        match (self, other) {
            (Credential::Managed { path: a }, Credential::Managed { path: b }) => same(
                a.as_str(),
                b.as_str(),
            ),
            (Credential::Env { name: a }, Credential::Env { name: b }) => same(
                a.as_str(),
                b.as_str(),
            ),
            (
                Credential::Command { argv: a, cache_seconds: left },
                Credential::Command { argv: b, cache_seconds: right },
            ) => *left == *right && all_same(a, b),
            _ => false,
        }
    }
}

/// Whether two lists of texts are the same.
pub fn all_same(a: &Vec<String>, b: &Vec<String>) -> (yes: bool)
    ensures
        yes == (crate::text::views(a@) == crate::text::views(b@)),
{
    let ghost left = crate::text::views(a@);
    let ghost right = crate::text::views(b@);
    if a.len() != b.len() {
        assert(left.len() != right.len());
        return false;
    }
    let mut i: usize = 0;
    while i < a.len()
        invariant
            i <= a@.len(),
            a@.len() == b@.len(),
            left == crate::text::views(a@),
            right == crate::text::views(b@),
            forall|k: int| 0 <= k < i ==> left[k] == right[k],
        decreases a@.len() - i,
    {
        if !same(a[i].as_str(), b[i].as_str()) {
            assert(left[i as int] != right[i as int]);
            return false;
        }
        i = i + 1;
    }
    assert(left =~= right);
    true
}

fn same_level(a: Option<Level>, b: Option<Level>) -> (yes: bool)
    ensures
        yes == (a == b),
{
    match (a, b) {
        (Some(left), Some(right)) => left.bits == right.bits,
        (None, None) => true,
        _ => false,
    }
}

impl Account {
    /// The share of a limit from which this account is not selected.
    pub fn threshold(&self, default: Level) -> (level: Level)
        ensures
            level == self@.threshold(default),
    {
        match self.threshold_percent {
            Some(level) => level,
            None => default,
        }
    }

    /// The base URL, without slashes at its end.
    pub fn base(&self) -> (url: String)
        ensures
            url@ == self@.base(),
    {
        let url = match &self.base_url {
            Some(url) => url.as_str(),
            None => match self.kind {
                Kind::Chatgpt => "https://chatgpt.com/backend-api/codex",
                Kind::Api => "https://api.openai.com/v1",
            },
        };
        trim_end_matches(url, '/')
    }

    /// The usage endpoint.
    pub fn usage(&self) -> (url: Option<&str>)
        ensures
            crate::json::read(url) == self@.usage(),
    {
        match &self.usage_url {
            Some(url) => Some(url.as_str()),
            None => if self.kind == Kind::Chatgpt && self.base_url.is_none() {
                Some("https://chatgpt.com/backend-api/wham/usage")
            } else {
                None
            },
        }
    }

    /// The endpoint of reset credits. It stands next to the usage endpoint, so only a ChatGPT
    /// account with a usage endpoint has one.
    pub fn reset_credits(&self) -> (url: Option<String>)
        ensures
            url is Some <==> self@.has_reset_credits(),
            url matches Some(text) ==> self@.is_reset_credits(text@),
    {
        if self.kind != Kind::Chatgpt {
            return None;
        }
        match self.usage() {
            Some(usage) => match strip_suffix(usage, "/usage") {
                Some(base) => Some(concat(base.as_str(), "/rate-limit-reset-credits")),
                None => None,
            },
            None => None,
        }
    }

    /// A copy.
    pub fn copy(&self) -> (copy: Account)
        ensures
            copy@ == self@,
    {
        Account {
            name: self.name.clone(),
            kind: self.kind,
            base_url: copy_option(&self.base_url),
            usage_url: copy_option(&self.usage_url),
            account_id: copy_option(&self.account_id),
            user_id: copy_option(&self.user_id),
            credential: self.credential.copy(),
            priority: self.priority,
            disabled: self.disabled,
            groups: copy_all(&self.groups),
            models: copy_all(&self.models),
            threshold_percent: self.threshold_percent,
            auto_reset: self.auto_reset,
        }
    }

    /// Whether two accounts are the same in every field.
    pub fn same(&self, other: &Account) -> (yes: bool)
        ensures
            yes == (self@ == other@),
    {
        same(self.name.as_str(), other.name.as_str()) && self.kind == other.kind && options_same(
            &self.base_url,
            &other.base_url,
        ) && options_same(&self.usage_url, &other.usage_url) && options_same(
            &self.account_id,
            &other.account_id,
        ) && options_same(&self.user_id, &other.user_id) && self.credential.same(&other.credential)
            && self.priority == other.priority && self.disabled == other.disabled && all_same(
            &self.groups,
            &other.groups,
        ) && all_same(&self.models, &other.models) && same_level(
            self.threshold_percent,
            other.threshold_percent,
        ) && self.auto_reset == other.auto_reset
    }

    fn check_credential(&self) -> (error: Option<ConfigError>)
        ensures
            error == credential_error(self@),
    {
        match &self.credential {
            Credential::Managed { path } => if !is_bounded_id(&self.account_id) || !is_bounded_id(
                &self.user_id,
            ) {
                Some(ConfigError::Identity)
            } else if !is_absolute(path.as_str()) {
                Some(ConfigError::ManagedPath)
            } else if self.kind != Kind::Chatgpt {
                Some(ConfigError::ManagedKind)
            } else {
                None
            },
            Credential::Env { name } => if chars_of(name.as_str()).len() == 0 {
                Some(ConfigError::CredentialVariable)
            } else if self.kind == Kind::Chatgpt && self.account_id.is_none() {
                Some(ConfigError::ChatgptEnvironment)
            } else {
                None
            },
            Credential::Command { argv, cache_seconds: _ } => {
                assert(argv@.len() > 0 ==> self@.credential->argv[0] == argv@[0]@);
                if argv.len() == 0 || chars_of(argv[0].as_str()).len() == 0 {
                    Some(ConfigError::CredentialCommand)
                } else {
                    None
                }
            },
        }
    }

    fn check_upstream(&self) -> (error: Option<ConfigError>)
        ensures
            error == upstream_error(self@),
    {
        let text = self.base();
        let base = crate::url::read_url(text.as_str());
        if let Some(error) = crate::url::check(&base) {
            return Some(ConfigError::Url(error));
        }
        match self.usage() {
            Some(url) => {
                let usage = crate::url::read_url(url);
                if let Some(error) = crate::url::check(&usage) {
                    return Some(ConfigError::Url(error));
                }
                match (&usage, &base) {
                    (Some(a), Some(b)) => if crate::url::is_same_origin(a, b) {
                        None
                    } else {
                        Some(ConfigError::Origin)
                    },
                    _ => None,
                }
            },
            None => None,
        }
    }

    /// Checks an account, given the accounts before it.
    fn check(&self, earlier: &Vec<Account>, count: usize) -> (error: Option<ConfigError>)
        requires
            count <= earlier@.len(),
        ensures
            error == account_error(self@, account_views(earlier@).take(count as int)),
    {
        let ghost before = account_views(earlier@).take(count as int);
        if validate_name(self.name.as_str()).is_err() {
            return Some(ConfigError::Name);
        }
        let mut i: usize = 0;
        while i < count
            invariant
                i <= count <= earlier@.len(),
                before == account_views(earlier@).take(count as int),
                valid_name(self@.name),
                forall|k: int| 0 <= k < i ==> (#[trigger] before[k]).name != self.name@,
            decreases count - i,
        {
            assert(before[i as int] == earlier@[i as int]@);
            if same(earlier[i].name.as_str(), self.name.as_str()) {
                assert(named(before, self@.name));
                return Some(ConfigError::Duplicate);
            }
            i = i + 1;
        }
        assert(!named(before, self@.name));
        if let Some(level) = self.threshold_percent {
            if !level.is_threshold() {
                return Some(ConfigError::AccountThreshold);
            }
        }
        if let Some(error) = self.check_upstream() {
            return Some(error);
        }
        if let Some(id) = &self.account_id {
            if chars_of(id.as_str()).len() == 0 || !is_header_value(id.as_str()) {
                return Some(ConfigError::AccountId);
            }
        }
        self.check_credential()
    }
}

impl Config {
    /// The tables of the configuration are in order.
    pub open spec fn wf(&self) -> bool {
        self.model_limits.wf() && self.prices.wf()
    }

    /// The configuration of a pool without accounts, whose state stands next to `path`.
    pub fn local(path: &str) -> (config: Config)
        ensures
            config.wf(),
            config@ == (ConfigView {
                settings: SettingsView {
                    ip: Ip::V4(127, 0, 0, 1),
                    listen: "127.0.0.1:4269"@,
                    client_token_env: "TEAMCODEX_PROXY_TOKEN"@,
                    client_token_file: Some(
                        crate::paths::joined(
                            crate::paths::with_extension(path@, "state"@),
                            "proxy.token"@,
                        ),
                    ),
                    threshold_percent: Level { bits: NINETY_FIVE },
                    probe_interval_seconds: 60,
                    idle_timeout_seconds: 300,
                    model_limits: Map::empty(),
                    prices: Map::empty(),
                },
                accounts: Seq::empty(),
            }),
            config@.error() is None <==> crate::paths::absolute(
                crate::paths::joined(
                    crate::paths::with_extension(path@, "state"@),
                    "proxy.token"@,
                ),
            ),
    {
        let config = Config {
            listen: listen(),
            client_token_env: client_token_env(),
            client_token_file: Some(token_file(path)),
            threshold_percent: threshold(),
            probe_interval_seconds: probe_interval(),
            idle_timeout_seconds: idle_timeout(),
            model_limits: Table::new(),
            prices: Table::new(),
            accounts: Vec::new(),
        };
        assert(config@.settings.model_limits =~= Map::empty());
        assert(config@.accounts =~= Seq::empty());
        assert(config@.settings.client_token_env.len() > 0) by {
            reveal_strlit("TEAMCODEX_PROXY_TOKEN");
        }
        config
    }

    /// Checks a configuration.
    pub fn validate(&self) -> (result: Result<(), ConfigError>)
        requires
            self.wf(),
        ensures
            result == match self@.error() {
                Some(error) => Err::<(), ConfigError>(error),
                None => Ok(()),
            },
    {
        if !self.listen.ip.is_loopback() {
            return Err(ConfigError::Listen);
        }
        if chars_of(self.client_token_env.as_str()).len() == 0 {
            return Err(ConfigError::ClientTokenEnv);
        }
        if let Some(path) = &self.client_token_file {
            if !is_absolute(path.as_str()) {
                return Err(ConfigError::ClientTokenFile);
            }
        }
        if !self.threshold_percent.is_threshold() {
            return Err(ConfigError::Threshold);
        }
        if self.idle_timeout_seconds == 0 {
            return Err(ConfigError::IdleTimeout);
        }
        assert(self@.settings.prices == self.prices@);
        if !self.prices_are_valid() {
            return Err(ConfigError::Price);
        }
        assert(settings_error(self@.settings) is None);
        let ghost all = account_views(self.accounts@);
        let mut i: usize = 0;
        assert(all.take(0) =~= Seq::empty());
        while i < self.accounts.len()
            invariant
                i <= self.accounts@.len(),
                all == account_views(self.accounts@),
                settings_error(self@.settings) is None,
                accounts_error(all.take(i as int)) is None,
            decreases self.accounts@.len() - i,
        {
            assert(all.take(i + 1).drop_last() =~= all.take(i as int));
            assert(all.take(i + 1).last() == self.accounts@[i as int]@);
            if let Some(error) = self.accounts[i].check(&self.accounts, i) {
                proof {
                    lemma_first_error(all, i + 1);
                }
                return Err(error);
            }
            i = i + 1;
        }
        assert(all.take(all.len() as int) =~= all);
        Ok(())
    }

    fn prices_are_valid(&self) -> (yes: bool)
        requires
            self.wf(),
        ensures
            yes == !(exists|model: Seq<char>|
                self.prices@.contains_key(model) && !valid_price(#[trigger] self.prices@[model])),
    {
        let mut i: usize = 0;
        proof {
            self.prices.rows_are_the_map();
        }
        while i < self.prices.len()
            invariant
                self.wf(),
                i <= self.prices.entries().len(),
                forall|k: int|
                    0 <= k < i ==> valid_price((#[trigger] self.prices.entries()[k]).1),
            decreases self.prices.entries().len() - i,
        {
            let price = self.prices.value(i);
            if !(price.input_per_million.is_usable() && price.cached_input_per_million.is_usable()
                && price.output_per_million.is_usable()) {
                proof {
                    self.prices.rows_are_the_map();
                    let model = self.prices.entries()[i as int].0;
                    assert(self.prices@.contains_key(model));
                    assert(!valid_price(self.prices@[model]));
                }
                return false;
            }
            i = i + 1;
        }
        proof {
            assert forall|model: Seq<char>| self.prices@.contains_key(model) implies valid_price(
                #[trigger] self.prices@[model],
            ) by {
                let k = choose|k: int|
                    0 <= k < self.prices.entries().len() && (#[trigger] self.prices.entries()[k]).0
                        == model;
                assert(valid_price(self.prices.entries()[k].1));
            }
        }
        true
    }

    /// Whether two configurations have the same settings, whatever their accounts.
    pub fn same_settings(&self, other: &Config) -> (yes: bool)
        requires
            self.wf(),
            other.wf(),
        ensures
            yes == (self@.settings == other@.settings),
    {
        let yes = self.listen.ip == other.listen.ip && same(
            self.listen.text.as_str(),
            other.listen.text.as_str(),
        ) && same(self.client_token_env.as_str(), other.client_token_env.as_str()) && options_same(
            &self.client_token_file,
            &other.client_token_file,
        ) && self.threshold_percent.bits == other.threshold_percent.bits
            && self.probe_interval_seconds == other.probe_interval_seconds
            && self.idle_timeout_seconds == other.idle_timeout_seconds && same_limits(
            &self.model_limits,
            &other.model_limits,
        ) && same_prices(&self.prices, &other.prices);
        assert(yes ==> self@.settings =~= other@.settings);
        yes
    }
}

/// The first error among more accounts is the first error among all.
proof fn lemma_first_error(accounts: Seq<AccountView>, n: int)
    requires
        0 <= n <= accounts.len(),
        accounts_error(accounts.take(n)) is Some,
    ensures
        accounts_error(accounts) == accounts_error(accounts.take(n)),
    decreases accounts.len() - n,
{
    if n < accounts.len() {
        assert(accounts.take(n + 1).drop_last() =~= accounts.take(n));
        lemma_first_error(accounts, n + 1);
    } else {
        assert(accounts.take(n) =~= accounts);
    }
}

/// The file of the local proxy token next to a configuration.
pub fn token_file(path: &str) -> (file: String)
    ensures
        file@ == crate::paths::joined(
            crate::paths::with_extension(path@, "state"@),
            "proxy.token"@,
        ),
{
    let state = replace_extension(path, "state");
    join(state.as_str(), "proxy.token")
}

fn same_limits(a: &Table<Vec<String>>, b: &Table<Vec<String>>) -> (yes: bool)
    requires
        a.wf(),
        b.wf(),
    ensures
        yes == (limit_views(a@) == limit_views(b@)),
{
    proof {
        a.rows_are_the_map();
        b.rows_are_the_map();
        assert(limit_views(a@).dom() =~= a@.dom());
        assert(limit_views(b@).dom() =~= b@.dom());
    }
    if a.len() != b.len() {
        return false;
    }
    let mut i: usize = 0;
    while i < a.len()
        invariant
            a.wf(),
            b.wf(),
            i <= a.entries().len(),
            forall|k: int|
                0 <= k < i ==> b@.contains_key((#[trigger] a.entries()[k]).0) && crate::text::views(
                    b@[a.entries()[k].0]@,
                ) == crate::text::views(a.entries()[k].1@),
        decreases a.entries().len() - i,
    {
        proof {
            a.rows_are_the_map();
            assert(limit_views(a@).contains_key(a.entries()[i as int].0));
            assert(limit_views(a@)[a.entries()[i as int].0] == crate::text::views(
                a.entries()[i as int].1@,
            ));
        }
        match b.get(a.key(i)) {
            Some(ids) => if !all_same(ids, a.value(i)) {
                return false;
            },
            None => {
                assert(!limit_views(b@).contains_key(a.entries()[i as int].0));
                return false;
            },
        }
        i = i + 1;
    }
    proof {
        a.rows_are_the_map();
        b.rows_are_the_map();
        assert forall|model: Seq<char>| a@.contains_key(model) implies #[trigger] b@.contains_key(
            model,
        ) && limit_views(a@)[model] == limit_views(b@)[model] by {
            let k = choose|k: int|
                0 <= k < a.entries().len() && (#[trigger] a.entries()[k]).0 == model;
            assert(b@.contains_key(a.entries()[k].0));
        }
        assert(a@.dom().subset_of(b@.dom()));
        vstd::set_lib::lemma_subset_equality(a@.dom(), b@.dom());
        assert(limit_views(a@) =~= limit_views(b@));
    }
    true
}

fn same_prices(a: &Table<Price>, b: &Table<Price>) -> (yes: bool)
    requires
        a.wf(),
        b.wf(),
    ensures
        yes == (a@ == b@),
{
    proof {
        a.rows_are_the_map();
        b.rows_are_the_map();
    }
    if a.len() != b.len() {
        return false;
    }
    let mut i: usize = 0;
    while i < a.len()
        invariant
            a.wf(),
            b.wf(),
            i <= a.entries().len(),
            forall|k: int|
                0 <= k < i ==> b@.contains_key((#[trigger] a.entries()[k]).0)
                    && b@[a.entries()[k].0] == a.entries()[k].1,
        decreases a.entries().len() - i,
    {
        proof {
            a.rows_are_the_map();
            assert(a@.contains_key(a.entries()[i as int].0));
        }
        match b.get(a.key(i)) {
            Some(price) => if *price != *a.value(i) {
                return false;
            },
            None => {
                return false;
            },
        }
        i = i + 1;
    }
    proof {
        a.rows_are_the_map();
        b.rows_are_the_map();
        assert forall|model: Seq<char>| a@.contains_key(model) implies #[trigger] b@.contains_key(
            model,
        ) && a@[model] == b@[model] by {
            let k = choose|k: int|
                0 <= k < a.entries().len() && (#[trigger] a.entries()[k]).0 == model;
            assert(b@.contains_key(a.entries()[k].0));
        }
        assert(a@.dom().subset_of(b@.dom()));
        vstd::set_lib::lemma_subset_equality(a@.dom(), b@.dom());
        assert(a@ =~= b@);
    }
    true
}

/// A local proxy token: at least 16 visible ASCII characters.
pub open spec fn valid_token(token: Seq<char>) -> bool {
    crate::text::utf8(token).len() >= 16 && crate::text::visible_ascii(token)
}

/// Whether a text can be the local proxy token.
pub fn is_valid_token(token: &str) -> (yes: bool)
    ensures
        yes == valid_token(token@),
{
    byte_len(token) >= 16 && is_visible_ascii(token)
}

/// What the variable of the local proxy token holds.
pub enum Variable {
    /// The variable is set to this text.
    Text(String),
    /// The variable is not set.
    Missing,
    /// The variable is set to what is no text.
    Unreadable,
}

/// Where the local proxy token is taken from.
pub enum TokenSource {
    /// The token.
    Given(String),
    /// The private file with this path.
    File(String),
}

/// Why there is no local proxy token.
#[derive(Clone, Copy, Debug, PartialEq, Eq, Structural)]
pub enum TokenError {
    /// The variable is not set, and no file is configured.
    Missing,
    /// The variable is set to what is no text.
    Unreadable,
    /// The token is too short, or not visible ASCII.
    Invalid,
}

/// What is told of an error.
pub open spec fn token_error_text(error: TokenError) -> Seq<char> {
    match error {
        TokenError::Missing => "client token variable is not set"@,
        TokenError::Unreadable => "invalid local proxy token variable"@,
        TokenError::Invalid => "client token must contain at least 16 visible ASCII characters"@,
    }
}

impl TokenError {
    /// What is told of the error.
    pub fn message(self) -> (text: &'static str)
        ensures
            text@ == token_error_text(self),
    {
        match self {
            TokenError::Missing => "client token variable is not set",
            TokenError::Unreadable => "invalid local proxy token variable",
            TokenError::Invalid => "client token must contain at least 16 visible ASCII characters",
        }
    }
}

impl Config {
    /// Where the local proxy token is taken from: the variable goes before the file.
    pub fn token_source(&self, variable: Variable) -> (source: Result<TokenSource, TokenError>)
        ensures
            match variable {
                Variable::Text(token) => source matches Ok(TokenSource::Given(text)) && text
                    == token,
                Variable::Missing => match self@.settings.client_token_file {
                    Some(path) => source matches Ok(TokenSource::File(file)) && file@ == path,
                    None => source matches Err(error) && error == TokenError::Missing,
                },
                Variable::Unreadable => source matches Err(error) && error
                    == TokenError::Unreadable,
            },
    {
        match variable {
            Variable::Text(token) => Ok(TokenSource::Given(token)),
            Variable::Missing => match &self.client_token_file {
                Some(path) => Ok(TokenSource::File(path.clone())),
                None => Err(TokenError::Missing),
            },
            Variable::Unreadable => Err(TokenError::Unreadable),
        }
    }
}

/// Accepts a local proxy token.
pub fn accept_token(token: String) -> (result: Result<String, TokenError>)
    ensures
        match result {
            Ok(text) => text == token && valid_token(token@),
            Err(error) => error == TokenError::Invalid && !valid_token(token@),
        },
{
    if is_valid_token(token.as_str()) {
        Ok(token)
    } else {
        Err(TokenError::Invalid)
    }
}

/// In a valid configuration no two accounts have the same name.
pub proof fn valid_names_differ(accounts: Seq<AccountView>, i: int, j: int)
    requires
        accounts_error(accounts) is None,
        0 <= i < j < accounts.len(),
    ensures
        accounts[i].name != accounts[j].name,
    decreases accounts.len(),
{
    if j < accounts.len() - 1 {
        valid_names_differ(accounts.drop_last(), i, j);
    } else {
        let earlier = accounts.drop_last();
        assert(earlier[i].name == accounts[i].name);
        assert(named(earlier, accounts[i].name));
    }
}

/// In a valid configuration every account is valid by itself.
pub proof fn valid_accounts_are_valid(accounts: Seq<AccountView>, i: int)
    requires
        accounts_error(accounts) is None,
        0 <= i < accounts.len(),
    ensures
        account_error(accounts[i], accounts.take(i)) is None,
        accounts_error(accounts.take(i)) is None,
    decreases accounts.len(),
{
    if i < accounts.len() - 1 {
        valid_accounts_are_valid(accounts.drop_last(), i);
        assert(accounts.drop_last().take(i) =~= accounts.take(i));
    } else {
        assert(accounts.drop_last() =~= accounts.take(i));
    }
}

/// In a valid configuration the usage endpoint of an account is on the origin of its base URL, so
/// its token goes to no other.
pub proof fn usage_stays_on_origin(accounts: Seq<AccountView>, i: int)
    requires
        accounts_error(accounts) is None,
        0 <= i < accounts.len(),
        accounts[i].usage() is Some,
    ensures
        crate::url::url_parts(accounts[i].base()) is Some,
        crate::url::url_parts(accounts[i].usage()->Some_0) is Some,
        crate::url::same_origin(
            crate::url::url_parts(accounts[i].usage()->Some_0)->Some_0,
            crate::url::url_parts(accounts[i].base())->Some_0,
        ),
{
    valid_accounts_are_valid(accounts, i);
}

/// Whether settings can be used: the proxy listens on this machine, its token has a place, the
/// threshold is above 0 and at most 100, the idle timeout is positive, and no price is negative or
/// infinite.
pub proof fn settings_are_valid(settings: SettingsView)
    ensures
        settings_error(settings) is None <==> {
            &&& match settings.ip {
                Ip::V4(first, _, _, _) => first == 127,
                Ip::V6(a, b, c, d, e, f, g, h) => a == 0 && b == 0 && c == 0 && d == 0 && e == 0
                    && f == 0 && g == 0 && h == 1,
            }
            &&& settings.client_token_env.len() > 0
            &&& settings.client_token_file is Some ==> settings.client_token_file->Some_0.len() > 0
                && settings.client_token_file->Some_0[0] == '/'
            &&& 0 < settings.threshold_percent.bits <= 0x4059_0000_0000_0000
            &&& settings.idle_timeout_seconds > 0
            &&& forall|model: Seq<char>|
                settings.prices.contains_key(model) ==> valid_price(#[trigger] settings.prices[model])
        },
{
    crate::level::numbers_are_told_by_their_bits(settings.threshold_percent);
}

/// What is wrong with settings, the first thing of several.
pub proof fn wrong_settings_are_named(settings: SettingsView)
    ensures
        ({
            let error = settings_error(settings);
            let here = settings.ip.loopback();
            let variable = settings.client_token_env.len() > 0;
            let file = match settings.client_token_file {
                Some(path) => path.len() > 0 && path[0] == '/',
                None => true,
            };
            let threshold = 0 < settings.threshold_percent.bits <= 0x4059_0000_0000_0000;
            let idle = settings.idle_timeout_seconds > 0;
            &&& error == Some(ConfigError::Listen) <==> !here
            &&& error == Some(ConfigError::ClientTokenEnv) <==> here && !variable
            &&& error == Some(ConfigError::ClientTokenFile) <==> here && variable && !file
            &&& error == Some(ConfigError::Threshold) <==> here && variable && file && !threshold
            &&& error == Some(ConfigError::IdleTimeout) <==> here && variable && file && threshold
                && !idle
            &&& error is Some && here && variable && file && threshold && idle ==> error == Some(
                ConfigError::Price,
            )
        }),
{
    crate::level::numbers_are_told_by_their_bits(settings.threshold_percent);
}

/// A price is valid where each of its three numbers is zero or positive and finite.
pub proof fn prices_are_finite(price: Price)
    ensures
        valid_price(price) <==> price.input_per_million.usable()
            && price.cached_input_per_million.usable() && price.output_per_million.usable(),
{
}

/// A name has 1 to 64 characters: letters, digits, dots, underscores and hyphens.
pub proof fn names_are_plain(name: Seq<char>)
    ensures
        valid_name(name) <==> 1 <= name.len() <= 64 && forall|i: int|
            0 <= i < name.len() ==> {
                let letter = #[trigger] name[i];
                ('A' <= letter && letter <= 'Z') || ('a' <= letter && letter <= 'z') || ('0'
                    <= letter && letter <= '9') || letter == '.' || letter == '_' || letter == '-'
            },
{
    if valid_name(name) {
        assert forall|i: int| 0 <= i < name.len() implies {
            let letter = #[trigger] name[i];
            ('A' <= letter && letter <= 'Z') || ('a' <= letter && letter <= 'z') || ('0' <= letter
                && letter <= '9') || letter == '.' || letter == '_' || letter == '-'
        } by {
            assert(is_name_char(name[i]));
        }
    }
}

/// Which credentials an account can have: managed ones for ChatGPT only, with an absolute path and
/// an account and a user of 1 to 256 bytes; a variable with a name, and an account where it is for
/// ChatGPT; a command that names a program.
pub proof fn credentials_fit_their_account(account: AccountView)
    ensures
        credential_error(account) is None <==> match account.credential {
            CredentialView::Managed { path } => {
                &&& account.account_id is Some && 1 <= crate::text::utf8(
                    account.account_id->Some_0,
                ).len() <= 256
                &&& account.user_id is Some && 1 <= crate::text::utf8(
                    account.user_id->Some_0,
                ).len() <= 256
                &&& path.len() > 0 && path[0] == '/'
                &&& account.kind == Kind::Chatgpt
            },
            CredentialView::Env { name } => {
                &&& name.len() > 0
                &&& account.kind == Kind::Chatgpt ==> account.account_id is Some
            },
            CredentialView::Command { argv, .. } => argv.len() > 0 && argv[0].len() > 0,
        },
        ({
            let error = credential_error(account);
            let identity = account.account_id is Some && 1 <= crate::text::utf8(
                account.account_id->Some_0,
            ).len() <= 256 && account.user_id is Some && 1 <= crate::text::utf8(
                account.user_id->Some_0,
            ).len() <= 256;
            match account.credential {
                CredentialView::Managed { path } => {
                    &&& error == Some(ConfigError::Identity) <==> !identity
                    &&& error == Some(ConfigError::ManagedPath) <==> identity && !(path.len() > 0
                        && path[0] == '/')
                    &&& error == Some(ConfigError::ManagedKind) <==> identity && path.len() > 0
                        && path[0] == '/' && account.kind != Kind::Chatgpt
                },
                CredentialView::Env { name } => {
                    &&& error == Some(ConfigError::CredentialVariable) <==> name.len() == 0
                    &&& error == Some(ConfigError::ChatgptEnvironment) <==> name.len() > 0
                        && account.kind == Kind::Chatgpt && account.account_id is None
                },
                CredentialView::Command { .. } => error is Some ==> error == Some(
                    ConfigError::CredentialCommand,
                ),
            }
        }),
{
}

/// An account is valid exactly where its name is, no earlier account has it, its threshold is above
/// 0 and at most 100, its upstream can be asked, its identifier can be sent and its credentials fit.
pub proof fn accounts_are_valid(account: AccountView, earlier: Seq<AccountView>)
    ensures
        ({
            let error = account_error(account, earlier);
            let taken = exists|i: int|
                0 <= i < earlier.len() && (#[trigger] earlier[i]).name == account.name;
            let threshold = account.threshold_percent is Some ==> 0
                < account.threshold_percent->Some_0.bits <= 0x4059_0000_0000_0000;
            let id = account.account_id is Some ==> account.account_id->Some_0.len() > 0
                && crate::headers::header_value(account.account_id->Some_0);
            let name = valid_name(account.name);
            let upstream = upstream_error(account);
            &&& error is None <==> name && !taken && threshold && upstream is None && id
                && credential_error(account) is None
            &&& error == Some(ConfigError::Name) <==> !name
            &&& error == Some(ConfigError::Duplicate) <==> name && taken
            &&& name && !taken && !threshold ==> error == Some(ConfigError::AccountThreshold)
            &&& name && !taken && threshold && upstream is Some ==> error == upstream
            &&& name && !taken && threshold && upstream is None && !id ==> error == Some(
                ConfigError::AccountId,
            )
        }),
{
    if account.threshold_percent is Some {
        crate::level::numbers_are_told_by_their_bits(account.threshold_percent->Some_0);
    }
}

/// A configuration is valid exactly where its settings are and each account is, among those before
/// it.
pub proof fn configurations_are_valid_throughout(config: ConfigView)
    ensures
        config.error() is None <==> settings_error(config.settings) is None && forall|i: int|
            0 <= i < config.accounts.len() ==> account_error(
                #[trigger] config.accounts[i],
                config.accounts.take(i),
            ) is None,
        settings_error(config.settings) is Some ==> config.error() == settings_error(
            config.settings,
        ),
{
    lemma_accounts_valid(config.accounts);
}

proof fn lemma_accounts_valid(accounts: Seq<AccountView>)
    ensures
        accounts_error(accounts) is None <==> forall|i: int|
            0 <= i < accounts.len() ==> account_error(#[trigger] accounts[i], accounts.take(i))
                is None,
    decreases accounts.len(),
{
    if accounts.len() > 0 {
        let rest = accounts.drop_last();
        let last = accounts.len() - 1;
        lemma_accounts_valid(rest);
        assert(accounts.take(last) =~= rest);
        assert(accounts[last] == accounts.last());
        assert forall|i: int| 0 <= i < last implies rest[i] == accounts[i] && #[trigger] rest.take(i)
            == accounts.take(i) by {
            assert(rest.take(i) =~= accounts.take(i));
        }
        if accounts_error(accounts) is None {
            assert forall|i: int| 0 <= i < accounts.len() implies account_error(
                #[trigger] accounts[i],
                accounts.take(i),
            ) is None by {
                if i < last {
                    assert(rest[i] == accounts[i] && rest.take(i) == accounts.take(i));
                }
            }
        }
        if forall|i: int|
            0 <= i < accounts.len() ==> account_error(#[trigger] accounts[i], accounts.take(i))
                is None {
            assert forall|i: int| 0 <= i < rest.len() implies account_error(
                #[trigger] rest[i],
                rest.take(i),
            ) is None by {
                assert(rest[i] == accounts[i] && rest.take(i) == accounts.take(i));
            }
            assert(account_error(accounts[last], accounts.take(last)) is None);
        }
    }
}

/// Where an account is asked: at its own address, or else at that of its kind; slashes at the end
/// do not count. Its usage is asked for at its own address for that, or else, for ChatGPT at its
/// usual address, at the usual one.
pub proof fn accounts_are_asked_at_their_address(account: AccountView)
    ensures
        ({
            let source = match account.base_url {
                Some(url) => url,
                None => if account.kind == Kind::Chatgpt {
                    "https://chatgpt.com/backend-api/codex"@
                } else {
                    "https://api.openai.com/v1"@
                },
            };
            &&& account.base().is_prefix_of(source)
            &&& forall|i: int| account.base().len() <= i < source.len() ==> #[trigger] source[i] == '/'
            &&& account.base().len() > 0 ==> account.base().last() != '/'
        }),
        account.usage_url is Some ==> account.usage() == account.usage_url,
        account.usage_url is None && account.kind == Kind::Chatgpt && account.base_url is None
            ==> account.usage() == Some("https://chatgpt.com/backend-api/wham/usage"@),
        account.usage_url is None && (account.kind == Kind::Api || account.base_url is Some)
            ==> account.usage() is None,
{
    let source = match account.base_url {
        Some(url) => url,
        None => match account.kind {
            Kind::Chatgpt => "https://chatgpt.com/backend-api/codex"@,
            Kind::Api => "https://api.openai.com/v1"@,
        },
    };
    crate::text::trailing_letters_are_cut(source, '/');
}

/// Reset credits are asked for beside the usage: where that of a ChatGPT account ends in `/usage`,
/// the end is `/rate-limit-reset-credits` instead.
pub proof fn reset_credits_stand_beside_the_usage(
    account: AccountView,
    base: Seq<char>,
)
    ensures
        account.kind == Kind::Chatgpt && account.usage() == Some(base + "/usage"@)
            ==> account.has_reset_credits() && account.is_reset_credits(
            base + "/rate-limit-reset-credits"@,
        ),
        account.kind == Kind::Api ==> !account.has_reset_credits(),
        account.has_reset_credits() ==> account.usage() is Some && exists|start: Seq<char>|
            account.usage()->Some_0 == #[trigger] (start + "/usage"@),
        account.threshold_percent is Some ==> forall|default: Level|
            #[trigger] account.threshold(default) == account.threshold_percent->Some_0,
        account.threshold_percent is None ==> forall|default: Level|
            #[trigger] account.threshold(default) == default,
{
    reveal_strlit("/usage");
    if account.usage() == Some(base + "/usage"@) {
        let url = base + "/usage"@;
        assert(url.subrange(base.len() as int, url.len() as int) =~= "/usage"@);
    }
    if account.has_reset_credits() {
        let url = account.usage()->Some_0;
        let start = url.take(url.len() - 6);
        assert(url =~= start + "/usage"@);
    }
}

/// The token of a client has 16 visible characters or more.
pub proof fn client_tokens_are_long(token: Seq<char>)
    ensures
        valid_token(token) <==> crate::text::utf8(token).len() >= 16 && forall|i: int|
            0 <= i < crate::text::utf8(token).len() ==> 33 <= #[trigger] crate::text::utf8(token)[i]
                <= 126,
{
}

/// What is said of a configuration that is not valid.
pub proof fn configuration_errors_are_worded()
    ensures
        error_text(ConfigError::Listen) == "listen address must be loopback"@,
        error_text(ConfigError::ClientTokenEnv) == "client_token_env is required"@,
        error_text(ConfigError::ClientTokenFile) == "client_token_file must be an absolute path"@,
        error_text(ConfigError::Threshold) == "threshold_percent must be in (0, 100]"@,
        error_text(ConfigError::IdleTimeout) == "idle timeout must be positive"@,
        error_text(ConfigError::Price) == "prices must be finite and nonnegative"@,
        error_text(ConfigError::Name)
            == "account names must contain 1-64 letters, digits, dots, underscores, or hyphens"@,
        error_text(ConfigError::Duplicate) == "duplicate account name"@,
        error_text(ConfigError::AccountThreshold)
            == "account threshold_percent must be in (0, 100]"@,
        error_text(ConfigError::Url(UrlError::Invalid)) == "invalid upstream URL"@,
        error_text(ConfigError::Url(UrlError::Insecure))
            == "upstreams require HTTPS; HTTP is allowed only for loopback test servers"@,
        error_text(ConfigError::Url(UrlError::Extra))
            == "upstream URLs must not contain credentials, queries, or fragments"@,
        error_text(ConfigError::Origin)
            == "usage URL must have the same origin as the account base URL"@,
        error_text(ConfigError::AccountId) == "invalid account_id"@,
        error_text(ConfigError::Identity) == "managed credentials require account_id and user_id"@,
        error_text(ConfigError::ManagedPath) == "managed credential path must be absolute"@,
        error_text(ConfigError::ManagedKind)
            == "managed OAuth credentials require a ChatGPT account"@,
        error_text(ConfigError::CredentialVariable) == "credential variable is required"@,
        error_text(ConfigError::CredentialCommand) == "credential command is required"@,
        error_text(ConfigError::ChatgptEnvironment)
            == "ChatGPT environment credentials require account_id"@,
{
}

/// What is said of the token of a client that cannot be had.
pub proof fn client_token_errors_are_worded()
    ensures
        token_error_text(TokenError::Missing) == "client token variable is not set"@,
        token_error_text(TokenError::Unreadable) == "invalid local proxy token variable"@,
        token_error_text(TokenError::Invalid)
            == "client token must contain at least 16 visible ASCII characters"@,
{
}

} // verus!
