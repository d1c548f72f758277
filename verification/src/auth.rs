//! The credentials of an account: when a token is still good, when it is loaded anew, and which
//! tokens are accepted.
use crate::config::Account;
use crate::config::AccountView;
use crate::config::Credential;
use crate::config::CredentialView;
use crate::config::Kind;
use crate::headers::is_header_value;
use crate::text::chars_of;
use crate::text::copy_option;
use crate::text::is_visible_ascii;
use crate::text::option_same;
use crate::text::options_same;
use crate::text::same;
use vstd::prelude::*;

verus! {

/// For how many seconds a failed credential source is not asked again.
pub const COOLDOWN_SECONDS: u64 = 5;

/// How many bytes a credential command may print.
pub const OUTPUT_LIMIT: usize = 65_536;

/// A token of an upstream. Its generation tells it from the tokens before and after it.
#[derive(Debug)]
pub struct Token {
    pub access_token: String,
    pub account_id: Option<String>,
    pub user_id: Option<String>,
    pub expires_at: Option<u64>,
    pub generation: u64,
}

/// What a token holds.
#[verifier::ext_equal]
pub struct TokenView {
    pub access_token: Seq<char>,
    pub account_id: Option<Seq<char>>,
    pub user_id: Option<Seq<char>>,
    pub expires_at: Option<u64>,
    pub generation: u64,
}

impl View for Token {
    type V = TokenView;

    open spec fn view(&self) -> TokenView {
        TokenView {
            access_token: self.access_token@,
            account_id: crate::text::option_view(self.account_id),
            user_id: crate::text::option_view(self.user_id),
            expires_at: self.expires_at,
            generation: self.generation,
        }
    }
}

impl Token {
    /// A copy.
    pub fn copy(&self) -> (copy: Token)
        ensures
            copy@ == self@,
    {
        Token {
            access_token: self.access_token.clone(),
            account_id: copy_option(&self.account_id),
            user_id: copy_option(&self.user_id),
            expires_at: self.expires_at,
            generation: self.generation,
        }
    }
}

/// Why there is no token.
#[derive(Clone, Copy, Debug, PartialEq, Eq, Structural)]
pub enum AuthError {
    /// The source failed a moment ago.
    Cooldown,
    /// The source gave nothing.
    Source,
    /// The token is empty, or not visible ASCII.
    AccessToken,
    /// The managed credentials belong to another account.
    Account,
    /// The credentials belong to another user.
    User,
    /// A ChatGPT account needs an account identity.
    AccountRequired,
    /// The account identity cannot be sent.
    AccountId,
    /// The token has expired, or is about to.
    Expired,
}

/// What is told of an error.
pub open spec fn error_text(error: AuthError) -> Seq<char> {
    match error {
        AuthError::Cooldown => "credential source is in cooldown"@,
        AuthError::Source => "credential source failed"@,
        AuthError::AccessToken => "invalid access token"@,
        AuthError::Account => "managed credentials belong to another account"@,
        AuthError::User => "credentials belong to another user"@,
        AuthError::AccountRequired => "ChatGPT credential requires account_id"@,
        AuthError::AccountId => "invalid account_id"@,
        AuthError::Expired => "credential source returned an expired token"@,
    }
}

impl AuthError {
    /// What is told of the error.
    pub fn message(self) -> (text: &'static str)
        ensures
            text@ == error_text(self),
    {
        match self {
            AuthError::Cooldown => "credential source is in cooldown",
            AuthError::Source => "credential source failed",
            AuthError::AccessToken => "invalid access token",
            AuthError::Account => "managed credentials belong to another account",
            AuthError::User => "credentials belong to another user",
            AuthError::AccountRequired => "ChatGPT credential requires account_id",
            AuthError::AccountId => "invalid account_id",
            AuthError::Expired => "credential source returned an expired token",
        }
    }
}

/// The tokens of one account: the last one, when it was loaded, how often the token has changed,
/// and when the source last failed.
pub struct Cache {
    pub token: Option<Token>,
    pub loaded_at: u64,
    pub generation: u64,
    pub failed_at: Option<u64>,
}

/// What a cache holds.
#[verifier::ext_equal]
pub struct CacheView {
    pub token: Option<TokenView>,
    pub loaded_at: u64,
    pub generation: u64,
    pub failed_at: Option<u64>,
}

impl View for Cache {
    type V = CacheView;

    open spec fn view(&self) -> CacheView {
        CacheView {
            token: match self.token {
                Some(token) => Some(token@),
                None => None,
            },
            loaded_at: self.loaded_at,
            generation: self.generation,
            failed_at: self.failed_at,
        }
    }
}

/// The cache of an account whose token was never loaded.
pub open spec fn empty_cache() -> CacheView {
    CacheView { token: None, loaded_at: 0, generation: 0, failed_at: None }
}

/// For how many seconds a token is used before its source is asked again.
pub open spec fn lifetime(credential: CredentialView) -> u64 {
    let seconds = match credential {
        CredentialView::Managed { path } => 30u64,
        CredentialView::Env { name } => 240u64,
        CredentialView::Command { argv, cache_seconds } => cache_seconds,
    };
    if seconds < 1 {
        1
    } else {
        seconds
    }
}

/// How many seconds before its expiry a token is not used any more.
pub open spec fn margin(credential: CredentialView) -> u64 {
    if credential is Managed {
        300
    } else {
        30
    }
}

/// The source failed a moment ago.
pub open spec fn cooling(cache: CacheView, at: u64) -> bool {
    cache.failed_at matches Some(failed) && at < crate::affinity::later(failed, COOLDOWN_SECONDS)
}

/// The token is the one that was rejected.
pub open spec fn is_rejected(token: TokenView, rejected: Option<u64>) -> bool {
    rejected == Some(token.generation)
}

/// The token can still be used.
pub open spec fn is_usable(
    cache: CacheView,
    credential: CredentialView,
    rejected: Option<u64>,
    at: u64,
) -> bool {
    &&& cache.token is Some
    &&& !is_rejected(cache.token->Some_0, rejected)
    &&& cache.token->Some_0.expires_at matches Some(expiry) ==> expiry > crate::affinity::later(
        at,
        margin(credential),
    )
    &&& at < crate::affinity::later(cache.loaded_at, lifetime(credential))
}

/// What is to be done for a token.
pub enum Decision {
    /// Nothing: the source failed a moment ago.
    Cooldown,
    /// Use this token.
    Use(Token),
    /// Ask the source, for a new token where one was rejected, and tell it which one.
    Load { refresh: bool, rejected_token: Option<String> },
}

impl Cache {
    /// The cache of an account whose token was never loaded.
    pub fn new() -> (cache: Cache)
        ensures
            cache@ == empty_cache(),
    {
        Cache { token: None, loaded_at: 0, generation: 0, failed_at: None }
    }

    /// What is to be done for a token at a given time, where a token of the generation `rejected`
    /// was rejected.
    pub fn decide(&self, account: &Account, rejected: Option<u64>, at: u64) -> (decision: Decision)
        ensures
            match decision {
                Decision::Cooldown => cooling(self@, at),
                Decision::Use(token) => {
                    &&& !cooling(self@, at)
                    &&& is_usable(self@, account@.credential, rejected, at)
                    &&& self@.token == Some(token@)
                },
                Decision::Load { refresh, rejected_token } => {
                    &&& asks_source(self@, account@.credential, rejected, at)
                    &&& refresh == (rejected is Some)
                    &&& crate::text::option_view(rejected_token) == match self@.token {
                        Some(token) => if is_rejected(token, rejected) {
                            Some(token.access_token)
                        } else {
                            None
                        },
                        None => None,
                    }
                },
            },
    {
        if let Some(failed) = self.failed_at {
            if at < failed.saturating_add(COOLDOWN_SECONDS) {
                return Decision::Cooldown;
            }
        }
        let (ttl, early): (u64, u64) = match &account.credential {
            Credential::Managed { path: _ } => (30, 300),
            Credential::Env { name: _ } => (240, 30),
            Credential::Command { argv: _, cache_seconds } => (*cache_seconds, 30),
        };
        let seconds: u64 = if ttl < 1 {
            1
        } else {
            ttl
        };
        let mut rejected_token: Option<String> = None;
        if let Some(token) = &self.token {
            let fresh = match token.expires_at {
                Some(expiry) => expiry > at.saturating_add(early),
                None => true,
            };
            let is_same = match rejected {
                Some(generation) => generation == token.generation,
                None => false,
            };
            if fresh && !is_same && at < self.loaded_at.saturating_add(seconds) {
                return Decision::Use(token.copy());
            }
            if is_same {
                rejected_token = Some(token.access_token.clone());
            }
        }
        Decision::Load { refresh: rejected.is_some(), rejected_token }
    }

    /// Takes in what the source gave once `decide` asked for it, where a token of the generation
    /// `rejected` was rejected. The time is that of the request for a token, and that of a failure
    /// where it failed. The generation advances where the token changed, or where a token
    /// was rejected: reloading the same token hides no rejection, and callers that rejected the
    /// old generation share one refresh.
    pub fn complete(
        &mut self,
        rejected: Option<u64>,
        result: Result<Token, AuthError>,
        at: u64,
        failed_at: u64,
    ) -> (token: Result<Token, AuthError>)
        ensures
            (final(self)@, result_view(token)) == completed(
                old(self)@,
                rejected,
                result_view(result),
                at,
                failed_at,
            ),
    {
        let forced = match (&self.token, rejected) {
            (Some(token), Some(generation)) => generation == token.generation,
            _ => false,
        };
        match result {
            Ok(loaded) => {
                let changed = match &self.token {
                    Some(previous) => !same(
                        previous.access_token.as_str(),
                        loaded.access_token.as_str(),
                    ) || !options_same(&previous.account_id, &loaded.account_id),
                    None => true,
                };
                if forced || changed {
                    self.generation = self.generation.wrapping_add(1);
                }
                let given = Token {
                    access_token: loaded.access_token,
                    account_id: loaded.account_id,
                    user_id: loaded.user_id,
                    expires_at: loaded.expires_at,
                    generation: self.generation,
                };
                self.loaded_at = at;
                self.failed_at = None;
                self.token = Some(given.copy());
                assert(self@ =~= completed(
                    old(self)@,
                    rejected,
                    result_view(result),
                    at,
                    failed_at,
                ).0);
                Ok(given)
            },
            Err(error) => {
                self.failed_at = Some(failed_at);
                self.token = None;
                assert(self@ =~= CacheView {
                    token: None,
                    failed_at: Some(failed_at),
                    ..old(self)@
                });
                Err(error)
            },
        }
    }
}

/// The generation once a token was loaded.
pub open spec fn next_generation(cache: CacheView, loaded: TokenView, forced: bool) -> u64 {
    let changed = match cache.token {
        Some(previous) => previous.access_token != loaded.access_token || previous.account_id
            != loaded.account_id,
        None => true,
    };
    if forced || changed {
        cache.generation.wrapping_add(1)
    } else {
        cache.generation
    }
}

/// What a token that was asked for holds.
pub open spec fn result_view(result: Result<Token, AuthError>) -> Result<TokenView, AuthError> {
    match result {
        Ok(token) => Ok(token@),
        Err(error) => Err(error),
    }
}

/// The cache once the source gave a token or failed, and what is given out.
pub open spec fn completed(
    cache: CacheView,
    rejected: Option<u64>,
    loaded: Result<TokenView, AuthError>,
    at: u64,
    failed_at: u64,
) -> (CacheView, Result<TokenView, AuthError>) {
    match loaded {
        Ok(token) => {
            let forced = cache.token matches Some(held) && is_rejected(held, rejected);
            let generation = next_generation(cache, token, forced);
            let given = TokenView { generation, ..token };
            (
                CacheView { token: Some(given), loaded_at: at, generation, failed_at: None },
                Ok(given),
            )
        },
        Err(error) => (
            CacheView { token: None, failed_at: Some(failed_at), ..cache },
            Err(error),
        ),
    }
}

/// The source is asked for a token.
pub open spec fn asks_source(
    cache: CacheView,
    credential: CredentialView,
    rejected: Option<u64>,
    at: u64,
) -> bool {
    !cooling(cache, at) && !is_usable(cache, credential, rejected, at)
}

/// The cache once a token was asked for, and what is given out, where the source gives this if it
/// is asked.
pub open spec fn got(
    cache: CacheView,
    credential: CredentialView,
    rejected: Option<u64>,
    loaded: Result<TokenView, AuthError>,
    at: u64,
    failed_at: u64,
) -> (CacheView, Result<TokenView, AuthError>) {
    if cooling(cache, at) {
        (cache, Err(AuthError::Cooldown))
    } else if is_usable(cache, credential, rejected, at) {
        (cache, Ok(cache.token->Some_0))
    } else {
        completed(cache, rejected, loaded, at, failed_at)
    }
}

/// The token that is held is of the newest generation.
pub open spec fn is_newest(cache: CacheView) -> bool {
    cache.token matches Some(token) ==> token.generation == cache.generation
}

/// The token that an environment variable holds for an account.
pub fn env_token(account: &Account, value: String) -> (token: Token)
    ensures
        token@ == (TokenView {
            access_token: value@,
            account_id: account@.account_id,
            user_id: account@.user_id,
            expires_at: None,
            generation: 0,
        }),
{
    Token {
        access_token: value,
        account_id: copy_option(&account.account_id),
        user_id: copy_option(&account.user_id),
        expires_at: None,
        generation: 0,
    }
}

/// What a credential command is told in `TEAMCODEX_REFRESH`.
pub fn refresh_flag(refresh: bool) -> (flag: &'static str)
    ensures
        flag@ == if refresh {
            "1"@
        } else {
            "0"@
        },
{
    if refresh {
        "1"
    } else {
        "0"
    }
}

/// Whether a credential command may print so many bytes.
pub fn output_fits(length: usize) -> (yes: bool)
    ensures
        yes == (length <= OUTPUT_LIMIT),
{
    length <= OUTPUT_LIMIT
}

/// The account identity that a token is sent with: that of the configuration, else its own.
pub open spec fn sent_account(account: AccountView, token: TokenView) -> Option<Seq<char>> {
    match account.account_id {
        Some(id) => Some(id),
        None => token.account_id,
    }
}

/// Why a token of a source is not accepted for an account; `None` where it is.
pub open spec fn token_error(account: AccountView, token: TokenView, at: u64) -> Option<AuthError> {
    let sent = sent_account(account, token);
    if token.access_token.len() == 0 || !crate::text::visible_ascii(token.access_token) {
        Some(AuthError::AccessToken)
    } else if account.credential is Managed && account.account_id is Some && account.account_id
        != token.account_id {
        Some(AuthError::Account)
    } else if account.user_id is Some && account.user_id != token.user_id {
        Some(AuthError::User)
    } else if account.kind == Kind::Chatgpt && !(sent matches Some(id) && id.len() > 0) {
        Some(AuthError::AccountRequired)
    } else if sent matches Some(id) && !crate::headers::header_value(id) {
        Some(AuthError::AccountId)
    } else if token.expires_at matches Some(expiry) && expiry <= crate::affinity::later(at, 5) {
        Some(AuthError::Expired)
    } else {
        None
    }
}

/// Checks a token of a source for an account, and puts the configured account identity in.
pub fn check_token(account: &Account, token: Token, at: u64) -> (result: Result<Token, AuthError>)
    ensures
        match token_error(account@, token@, at) {
            Some(error) => result matches Err(given) && given == error,
            None => result matches Ok(given) && given@ == (TokenView {
                account_id: sent_account(account@, token@),
                ..token@
            }),
        },
{
    if chars_of(token.access_token.as_str()).len() == 0 || !is_visible_ascii(
        token.access_token.as_str(),
    ) {
        return Err(AuthError::AccessToken);
    }
    if let Credential::Managed { path: _ } = &account.credential {
        if let Some(id) = &account.account_id {
            if !option_same(&token.account_id, id.as_str()) {
                return Err(AuthError::Account);
            }
        }
    }
    if let Some(id) = &account.user_id {
        if !option_same(&token.user_id, id.as_str()) {
            return Err(AuthError::User);
        }
    }
    let account_id: Option<String> = match &account.account_id {
        Some(id) => Some(id.clone()),
        None => copy_option(&token.account_id),
    };
    if account.kind == Kind::Chatgpt {
        let present = match &account_id {
            Some(id) => chars_of(id.as_str()).len() > 0,
            None => false,
        };
        if !present {
            return Err(AuthError::AccountRequired);
        }
    }
    if let Some(id) = &account_id {
        if !is_header_value(id.as_str()) {
            return Err(AuthError::AccountId);
        }
    }
    if let Some(expiry) = token.expires_at {
        if expiry <= at.saturating_add(5) {
            return Err(AuthError::Expired);
        }
    }
    Ok(
        Token {
            access_token: token.access_token,
            account_id,
            user_id: token.user_id,
            expires_at: token.expires_at,
            generation: token.generation,
        },
    )
}

/// Reloading the same token keeps its generation: a rejection of it that is under way still finds
/// it rejected.
pub proof fn same_token_keeps_its_generation(cache: CacheView, loaded: TokenView)
    requires
        cache.token matches Some(previous) && previous.access_token == loaded.access_token
            && previous.account_id == loaded.account_id,
    ensures
        next_generation(cache, loaded, false) == cache.generation,
{
}

/// A token of an older generation counts as rejected no more once a refresh was completed: callers
/// that rejected it share that refresh. (The generation is taken not to have gone once around.)
pub proof fn refresh_is_shared(
    cache: CacheView,
    loaded: TokenView,
    rejected: u64,
    credential: CredentialView,
    at: u64,
    time: u64,
)
    requires
        rejected <= cache.generation < u64::MAX,
        at <= time < crate::affinity::later(at, lifetime(credential)),
        loaded.expires_at matches Some(expiry) ==> expiry > crate::affinity::later(
            time,
            margin(credential),
        ),
    ensures
        ({
            let generation = next_generation(cache, loaded, true);
            let after = CacheView {
                token: Some(TokenView { generation, ..loaded }),
                loaded_at: at,
                generation,
                failed_at: None,
            };
            &&& !cooling(after, time)
            &&& is_usable(after, credential, Some(rejected), time)
        }),
{
}

/// The token that is held is always of the newest generation.
pub proof fn held_token_is_the_newest(
    cache: CacheView,
    credential: CredentialView,
    rejected: Option<u64>,
    loaded: Result<TokenView, AuthError>,
    at: u64,
    failed_at: u64,
)
    requires
        is_newest(cache),
    ensures
        is_newest(empty_cache()),
        is_newest(got(cache, credential, rejected, loaded, at, failed_at).0),
{
}

/// Asking for a token that was given out and rejected gives one of a later generation; and all who
/// reject the first get that one, without the source being asked again, for as long as it can be
/// used. A token that is loaded again unchanged, where none was rejected, keeps its generation. (It
/// takes a clock that does not go back, and a generation that is not the last.)
pub proof fn one_refresh_serves_all(
    cache: CacheView,
    credential: CredentialView,
    loaded: Result<TokenView, AuthError>,
    at: u64,
    renewed: TokenView,
    renewed_at: u64,
    other: Result<TokenView, AuthError>,
    time: u64,
    failed_at: u64,
)
    requires
        is_newest(cache),
        cache.generation < u64::MAX - 1,
        got(cache, credential, None, loaded, at, failed_at).1 is Ok,
        at <= renewed_at <= time < crate::affinity::later(renewed_at, lifetime(credential)),
        renewed.expires_at matches Some(expiry) ==> expiry > crate::affinity::later(
            time,
            margin(credential),
        ),
    ensures
        ({
            let (first, given) = got(cache, credential, None, loaded, at, failed_at);
            let old = given->Ok_0;
            let rejected = Some(old.generation);
            let (second, answer) = got(
                first,
                credential,
                rejected,
                Ok(renewed),
                renewed_at,
                failed_at,
            );
            &&& asks_source(first, credential, rejected, renewed_at)
            &&& answer matches Ok(token) && token.generation > old.generation && {
                &&& !asks_source(second, credential, rejected, time)
                &&& got(second, credential, rejected, other, time, failed_at) == (
                    second,
                    Ok::<TokenView, AuthError>(token),
                )
            }
            &&& asks_source(first, credential, None, time) && (other matches Ok(again)
                && again.access_token == old.access_token && again.account_id == old.account_id)
                ==> got(first, credential, None, other, time, failed_at).1->Ok_0.generation
                == old.generation
        }),
{
    let (first, given) = got(cache, credential, None, loaded, at, failed_at);
    assert(first.token == Some(given->Ok_0));
    assert(first.generation == given->Ok_0.generation);
    assert(!cooling(first, renewed_at));
}

/// After a failure the source is left alone for a moment, and no token is given out.
pub proof fn failure_cools_down(cache: CacheView, failed_at: u64, at: u64)
    requires
        failed_at <= at < failed_at + COOLDOWN_SECONDS,
        at < u64::MAX,
    ensures
        cooling(CacheView { token: None, failed_at: Some(failed_at), ..cache }, at),
{
}

/// A token that is accepted for a managed account carries the identity that is configured.
pub proof fn accepted_token_has_the_identity(account: AccountView, token: TokenView, at: u64)
    requires
        token_error(account, token, at) is None,
        account.credential is Managed,
        account.account_id is Some,
        account.user_id is Some,
    ensures
        token.account_id == account.account_id,
        token.user_id == account.user_id,
{
}

/// A token that was not rejected is used while it is fresh: for half a minute where it is managed, four
/// minutes from the environment, and as long as configured, a second at least, from a command. It must
/// outlast the present by five minutes where it is managed, and by half a minute elsewhere.
pub proof fn tokens_are_used_while_fresh(
    cache: CacheView,
    credential: CredentialView,
    rejected: Option<u64>,
    at: u64,
)
    requires
        cache.token is Some,
        at + 300 <= u64::MAX,
        cache.loaded_at + 240 <= u64::MAX,
        credential matches CredentialView::Command { cache_seconds, .. } ==> cache.loaded_at
            + cache_seconds <= u64::MAX,
    ensures
        ({
            let token = cache.token->Some_0;
            let age = at - cache.loaded_at;
            let accepted = rejected != Some(token.generation);
            let lasts = match token.expires_at {
                Some(expiry) => if credential is Managed {
                    expiry - at > 300
                } else {
                    expiry - at > 30
                },
                None => true,
            };
            let fresh = match credential {
                CredentialView::Managed { .. } => age < 30,
                CredentialView::Env { .. } => age < 240,
                CredentialView::Command { cache_seconds, .. } => age < cache_seconds || age < 1,
            };
            is_usable(cache, credential, rejected, at) <==> accepted && lasts && fresh
        }),
{
}

/// A source that failed is not asked again for five seconds, and is asked again after them.
pub proof fn failed_source_rests_five_seconds(
    cache: CacheView,
    credential: CredentialView,
    rejected: Option<u64>,
    loaded: Result<TokenView, AuthError>,
    failed: u64,
    time: u64,
    at: u64,
    failed_at: u64,
)
    requires
        loaded is Err,
        asks_source(cache, credential, rejected, time),
        failed + 5 <= u64::MAX,
        got(cache, credential, rejected, loaded, time, failed).0.failed_at == Some(failed),
    ensures
        ({
            let after = got(cache, credential, rejected, loaded, time, failed).0;
            &&& got(cache, credential, rejected, loaded, time, failed).1 == loaded
            &&& after.token is None
            &&& at < failed + 5 ==> got(after, credential, rejected, loaded, at, failed_at) == (
                after,
                Err::<TokenView, AuthError>(AuthError::Cooldown),
            )
            &&& at >= failed + 5 ==> asks_source(after, credential, rejected, at)
        }),
{
}

/// What a source gave is what is used and held: the same token, account, user and expiry. Its
/// generation is a new one exactly where the token or its account changed, or the held one was
/// rejected.
pub proof fn loaded_token_is_used(
    cache: CacheView,
    credential: CredentialView,
    rejected: Option<u64>,
    loaded: TokenView,
    at: u64,
    failed_at: u64,
)
    requires
        asks_source(cache, credential, rejected, at),
        cache.generation < u64::MAX,
    ensures
        ({
            let (after, answer) = got(cache, credential, rejected, Ok(loaded), at, failed_at);
            let same = cache.token matches Some(held) && held.access_token == loaded.access_token
                && held.account_id == loaded.account_id && rejected != Some(held.generation);
            &&& answer matches Ok(token) && after.token == Some(token) && {
                &&& token.access_token == loaded.access_token
                &&& token.account_id == loaded.account_id
                &&& token.user_id == loaded.user_id
                &&& token.expires_at == loaded.expires_at
                &&& token.generation == if same {
                    cache.generation as int
                } else {
                    cache.generation + 1
                }
            }
            &&& after.loaded_at == at
            &&& after.failed_at is None
            &&& after.generation == answer->Ok_0.generation
        }),
{
}

/// A token is accepted exactly where it is visible text, belongs to the configured account and user,
/// names an account that can be sent where one is needed, and lasts for more than five seconds.
pub proof fn accepted_tokens_can_be_sent(account: AccountView, token: TokenView, at: u64)
    requires
        at + 5 <= u64::MAX,
    ensures
        ({
            let sent = if account.account_id is Some {
                account.account_id
            } else {
                token.account_id
            };
            token_error(account, token, at) is None <==> {
                &&& token.access_token.len() > 0 && crate::text::visible_ascii(token.access_token)
                &&& account.credential is Managed && account.account_id is Some ==> token.account_id
                    == account.account_id
                &&& account.user_id is Some ==> token.user_id == account.user_id
                &&& account.kind == Kind::Chatgpt ==> sent is Some && sent->Some_0.len() > 0
                &&& sent is Some ==> crate::headers::header_value(sent->Some_0)
                &&& token.expires_at is Some ==> token.expires_at->Some_0 > at + 5
            }
        }),
        sent_account(account, token) == if account.account_id is Some {
            account.account_id
        } else {
            token.account_id
        },
{
}

/// Why a token is refused, the first reason of several: what it is, whose it is, which account it
/// is sent for, and how long it lasts.
pub proof fn refused_tokens_tell_why(account: AccountView, token: TokenView, at: u64)
    requires
        at + 5 <= u64::MAX,
    ensures
        ({
            let error = token_error(account, token, at);
            let sent = sent_account(account, token);
            let text = token.access_token.len() > 0 && crate::text::visible_ascii(
                token.access_token,
            );
            let owner = account.credential is Managed && account.account_id is Some
                ==> token.account_id == account.account_id;
            let user = account.user_id is Some ==> token.user_id == account.user_id;
            let named = account.kind == Kind::Chatgpt ==> sent is Some && sent->Some_0.len() > 0;
            let sendable = sent is Some ==> crate::headers::header_value(sent->Some_0);
            &&& error == Some(AuthError::AccessToken) <==> !text
            &&& error == Some(AuthError::Account) <==> text && !owner
            &&& error == Some(AuthError::User) <==> text && owner && !user
            &&& error == Some(AuthError::AccountRequired) <==> text && owner && user && !named
            &&& error == Some(AuthError::AccountId) <==> text && owner && user && named && !sendable
            &&& error == Some(AuthError::Expired) <==> text && owner && user && named && sendable
                && token.expires_at is Some && token.expires_at->Some_0 <= at + 5
        }),
{
}

/// What is said of a token that cannot be had or used.
pub proof fn token_errors_are_worded()
    ensures
        error_text(AuthError::Cooldown) == "credential source is in cooldown"@,
        error_text(AuthError::Source) == "credential source failed"@,
        error_text(AuthError::AccessToken) == "invalid access token"@,
        error_text(AuthError::Account) == "managed credentials belong to another account"@,
        error_text(AuthError::User) == "credentials belong to another user"@,
        error_text(AuthError::AccountRequired) == "ChatGPT credential requires account_id"@,
        error_text(AuthError::AccountId) == "invalid account_id"@,
        error_text(AuthError::Expired) == "credential source returned an expired token"@,
{
}

/// A new cache holds nothing and asks its source at once.
pub proof fn new_caches_ask_their_source(
    credential: CredentialView,
    rejected: Option<u64>,
    at: u64,
)
    ensures
        asks_source(empty_cache(), credential, rejected, at),
        empty_cache().token is None,
        empty_cache().generation == 0,
        empty_cache().loaded_at == 0,
        empty_cache().failed_at is None,
        OUTPUT_LIMIT == 64 * 1024,
{
}

} // verus!
