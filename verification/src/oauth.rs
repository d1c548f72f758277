//! Browser login and the renewal of managed tokens.
//!
//! The claims of a token are metadata of the token response, not proof of anything: the upstream
//! checks the token on every request.
use crate::auth::Token;
use crate::auth::TokenView;
use crate::codec::decode_bytes;
use crate::codec::hashed;
use crate::headers::is_header_value;
use crate::json::Json;
use crate::json::JsonView;
use crate::text::byte_len;
use crate::text::chars_of;
use crate::text::concat;
use crate::text::concat3;
use crate::text::copy_option;
use crate::text::decimal;
use crate::text::is_visible_ascii;
use crate::text::owned;
use crate::text::piece;
use crate::text::same;
use vstd::prelude::*;
use vstd::string::*;

verus! {

/// How many seconds before its expiry a managed token is renewed.
pub const REFRESH_EARLY: u64 = 300;

/// For how many seconds a failed renewal is not tried again.
pub const REFRESH_RETRY: u64 = 30;

/// How many bytes a token response may hold.
pub const RESPONSE_LIMIT: usize = 1_048_576;

/// The public client identifier of the Codex CLI.
pub open spec fn client_id_text() -> Seq<char> {
    "app_EMoamEEZ73f0CkXaXp7hrann"@
}

/// The public client identifier of the Codex CLI.
pub fn client_id() -> (id: &'static str)
    ensures
        id@ == client_id_text(),
{
    "app_EMoamEEZ73f0CkXaXp7hrann"
}

/// The issuer of tokens.
pub fn issuer() -> (url: &'static str)
    ensures
        url@ == "https://auth.openai.com"@,
{
    "https://auth.openai.com"
}

/// The tokens of a managed account as its file holds them.
#[derive(Debug)]
pub struct StoredTokens {
    pub access_token: String,
    pub refresh_token: String,
    pub account_id: String,
    pub user_id: String,
    pub expires_at: u64,
    pub email: Option<String>,
    pub retry_after: u64,
    pub login_required: bool,
}

/// What stored tokens hold.
#[verifier::ext_equal]
pub struct StoredView {
    pub access_token: Seq<char>,
    pub refresh_token: Seq<char>,
    pub account_id: Seq<char>,
    pub user_id: Seq<char>,
    pub expires_at: u64,
    pub email: Option<Seq<char>>,
    pub retry_after: u64,
    pub login_required: bool,
}

impl View for StoredTokens {
    type V = StoredView;

    open spec fn view(&self) -> StoredView {
        StoredView {
            access_token: self.access_token@,
            refresh_token: self.refresh_token@,
            account_id: self.account_id@,
            user_id: self.user_id@,
            expires_at: self.expires_at,
            email: crate::text::option_view(self.email),
            retry_after: self.retry_after,
            login_required: self.login_required,
        }
    }
}

/// Why there is no managed token.
#[derive(Clone, Copy, Debug, PartialEq, Eq, Structural)]
pub enum OauthError {
    /// The stored user identity is empty or too long.
    UserIdentity,
    /// The stored access token is empty, too long or not visible ASCII.
    AccessToken,
    /// The stored refresh token is empty, too long or not visible ASCII.
    RefreshToken,
    /// The stored account identity is empty, too long or cannot be sent.
    AccountIdentity,
    /// A response has no access token.
    NoAccessToken,
    /// A response names no account.
    NoAccount,
    /// A response names no user.
    NoUser,
    /// A renewed token belongs to another account or user.
    IdentityChanged,
    /// A response has no expiry.
    NoExpiry,
    /// A response has a token that has expired.
    Expired,
    /// A response has no refresh token.
    NoRefreshToken,
    /// The login has expired.
    LoginExpired,
    /// The last renewal failed a moment ago.
    Cooldown,
    /// A renewal gave what cannot be used.
    InvalidRefresh,
    /// A renewal failed for now.
    Unavailable,
}

/// What is told of an error.
pub open spec fn error_text(error: OauthError) -> Seq<char> {
    match error {
        OauthError::UserIdentity => "invalid managed user identity"@,
        OauthError::AccessToken => "invalid managed access token"@,
        OauthError::RefreshToken => "invalid managed refresh token"@,
        OauthError::AccountIdentity => "invalid managed account identity"@,
        OauthError::NoAccessToken => "OAuth response has no access token"@,
        OauthError::NoAccount => "OAuth response has no ChatGPT account identity"@,
        OauthError::NoUser => "OAuth response has no ChatGPT user identity"@,
        OauthError::IdentityChanged => "refreshed account identity changed; run tcx login again"@,
        OauthError::NoExpiry => "OAuth response has no access token expiry"@,
        OauthError::Expired => "OAuth response contains an expired access token"@,
        OauthError::NoRefreshToken => "OAuth response has no refresh token"@,
        OauthError::LoginExpired => "account login expired; run tcx login again"@,
        OauthError::Cooldown => "account refresh is in cooldown"@,
        OauthError::InvalidRefresh => "invalid refreshed credentials; run tcx login again"@,
        OauthError::Unavailable => "account refresh unavailable; retry shortly"@,
    }
}

impl OauthError {
    /// What is told of the error.
    pub fn message(self) -> (text: &'static str)
        ensures
            text@ == error_text(self),
    {
        match self {
            OauthError::UserIdentity => "invalid managed user identity",
            OauthError::AccessToken => "invalid managed access token",
            OauthError::RefreshToken => "invalid managed refresh token",
            OauthError::AccountIdentity => "invalid managed account identity",
            OauthError::NoAccessToken => "OAuth response has no access token",
            OauthError::NoAccount => "OAuth response has no ChatGPT account identity",
            OauthError::NoUser => "OAuth response has no ChatGPT user identity",
            OauthError::IdentityChanged => "refreshed account identity changed; run tcx login again",
            OauthError::NoExpiry => "OAuth response has no access token expiry",
            OauthError::Expired => "OAuth response contains an expired access token",
            OauthError::NoRefreshToken => "OAuth response has no refresh token",
            OauthError::LoginExpired => "account login expired; run tcx login again",
            OauthError::Cooldown => "account refresh is in cooldown",
            OauthError::InvalidRefresh => "invalid refreshed credentials; run tcx login again",
            OauthError::Unavailable => "account refresh unavailable; retry shortly",
        }
    }
}

/// A text whose length in bytes is between one and a limit.
pub open spec fn bounded(text: Seq<char>, limit: int) -> bool {
    0 < crate::text::utf8(text).len() <= limit
}

/// A secret that can be stored.
pub open spec fn storable(secret: Seq<char>) -> bool {
    bounded(secret, 65_536) && crate::text::visible_ascii(secret)
}

/// What is wrong with stored tokens.
pub open spec fn stored_error(stored: StoredView) -> Option<OauthError> {
    if !bounded(stored.user_id, 256) {
        Some(OauthError::UserIdentity)
    } else if !storable(stored.access_token) {
        Some(OauthError::AccessToken)
    } else if !storable(stored.refresh_token) {
        Some(OauthError::RefreshToken)
    } else if !bounded(stored.account_id, 256) || !crate::headers::header_value(
        stored.account_id,
    ) {
        Some(OauthError::AccountIdentity)
    } else {
        None
    }
}

fn is_bounded(text: &str, limit: usize) -> (yes: bool)
    ensures
        yes == bounded(text@, limit as int),
{
    let length: usize = byte_len(text);
    0 < length && length <= limit
}

fn is_storable(secret: &str) -> (yes: bool)
    ensures
        yes == storable(secret@),
{
    is_bounded(secret, 65_536) && is_visible_ascii(secret)
}

/// The token that stored tokens give.
pub open spec fn stored_token(stored: StoredView) -> TokenView {
    TokenView {
        access_token: stored.access_token,
        account_id: Some(stored.account_id),
        user_id: Some(stored.user_id),
        expires_at: Some(stored.expires_at),
        generation: 0,
    }
}

impl StoredTokens {
    /// Checks stored tokens.
    pub fn validate(&self) -> (result: Result<(), OauthError>)
        ensures
            result == match stored_error(self@) {
                Some(error) => Err::<(), OauthError>(error),
                None => Ok(()),
            },
    {
        if !is_bounded(self.user_id.as_str(), 256) {
            return Err(OauthError::UserIdentity);
        }
        if !is_storable(self.access_token.as_str()) {
            return Err(OauthError::AccessToken);
        }
        if !is_storable(self.refresh_token.as_str()) {
            return Err(OauthError::RefreshToken);
        }
        if !is_bounded(self.account_id.as_str(), 256) || !is_header_value(
            self.account_id.as_str(),
        ) {
            return Err(OauthError::AccountIdentity);
        }
        Ok(())
    }

    /// The token that these tokens give.
    pub fn token(&self) -> (token: Token)
        ensures
            token@ == stored_token(self@),
    {
        Token {
            access_token: self.access_token.clone(),
            account_id: Some(self.account_id.clone()),
            user_id: Some(self.user_id.clone()),
            expires_at: Some(self.expires_at),
            generation: 0,
        }
    }
}

/// What a token endpoint answers.
pub struct TokenResponse {
    pub access_token: Option<String>,
    pub refresh_token: Option<String>,
    pub id_token: Option<String>,
    pub expires_in: Option<u64>,
}

/// What an answer of a token endpoint holds.
pub struct ResponseView {
    pub access_token: Option<Seq<char>>,
    pub refresh_token: Option<Seq<char>>,
    pub id_token: Option<Seq<char>>,
    pub expires_in: Option<u64>,
}

impl View for TokenResponse {
    type V = ResponseView;

    open spec fn view(&self) -> ResponseView {
        ResponseView {
            access_token: crate::text::option_view(self.access_token),
            refresh_token: crate::text::option_view(self.refresh_token),
            id_token: crate::text::option_view(self.id_token),
            expires_in: self.expires_in,
        }
    }
}

/// How many characters stand before the first point.
pub open spec fn part_length(text: Seq<char>) -> nat
    decreases text.len(),
{
    if text.len() == 0 || text[0] == '.' {
        0
    } else {
        1 + part_length(text.drop_first())
    }
}

/// The second of the parts that points separate.
pub open spec fn second_part(token: Seq<char>) -> Option<Seq<char>> {
    let first = part_length(token) as int;
    if first >= token.len() {
        None
    } else {
        let rest = token.skip(first + 1);
        Some(rest.take(part_length(rest) as int))
    }
}

/// The claims of a token: the JSON value of its second part.
pub open spec fn claims_of(token: Seq<char>) -> Option<JsonView> {
    match second_part(token) {
        Some(part) => match crate::codec::decoded(part) {
            Some(bytes) => crate::json::json_value(bytes),
            None => None,
        },
        None => None,
    }
}

proof fn lemma_part_length(text: Seq<char>, n: int)
    requires
        0 <= n <= text.len(),
        forall|i: int| 0 <= i < n ==> #[trigger] text[i] != '.',
        n < text.len() ==> text[n] == '.',
    ensures
        part_length(text) == n,
    decreases n,
{
    if n > 0 {
        let rest = text.drop_first();
        assert forall|i: int| 0 <= i < n - 1 implies #[trigger] rest[i] != '.' by {
            assert(rest[i] == text[i + 1]);
        }
        lemma_part_length(rest, n - 1);
    }
}

fn end_of_part(chars: &Vec<char>, from: usize) -> (end: usize)
    requires
        from <= chars@.len(),
    ensures
        from <= end <= chars@.len(),
        end - from == part_length(chars@.skip(from as int)),
{
    let ghost rest = chars@.skip(from as int);
    let mut end: usize = from;
    while end < chars.len() && chars[end] != '.'
        invariant
            from <= end <= chars@.len(),
            forall|i: int| from <= i < end ==> #[trigger] chars@[i] != '.',
        decreases chars@.len() - end,
    {
        end = end + 1;
    }
    proof {
        assert forall|i: int| 0 <= i < end - from implies #[trigger] rest[i] != '.' by {
            assert(rest[i] == chars@[from + i]);
        }
        assert(end < chars@.len() ==> rest[end - from] == chars@[end as int]);
        lemma_part_length(rest, end - from);
    }
    end
}

/// The claims of a token.
pub fn claims(token: &str) -> (value: Option<Json>)
    ensures
        match value {
            Some(found) => claims_of(token@) == Some(found@),
            None => claims_of(token@) is None,
        },
{
    let chars = chars_of(token);
    assert(chars@.skip(0) =~= chars@);
    let first: usize = end_of_part(&chars, 0);
    if first >= chars.len() {
        return None;
    }
    let end: usize = end_of_part(&chars, first + 1);
    let part = piece(&chars, first + 1, end);
    assert(part@ =~= chars@.skip(first + 1).take(end - first - 1));
    match decode_bytes(part.as_str()) {
        Some(bytes) => Json::parse(bytes.as_slice()),
        None => None,
    }
}

/// A claim under the name of the authority.
pub open spec fn auth_claim(claims: Option<JsonView>, name: Seq<char>) -> Option<JsonView> {
    match claims {
        Some(value) => value.inner("https://api.openai.com/auth"@, name),
        None => None,
    }
}

/// A claim under the name of the profile.
pub open spec fn profile_claim(claims: Option<JsonView>, name: Seq<char>) -> Option<JsonView> {
    match claims {
        Some(value) => value.inner("https://api.openai.com/profile"@, name),
        None => None,
    }
}

/// A claim at the top.
pub open spec fn top_claim(claims: Option<JsonView>, name: Seq<char>) -> Option<JsonView> {
    match claims {
        Some(value) => value.member(name),
        None => None,
    }
}

/// The first of two values that is there.
pub open spec fn or_value(first: Option<JsonView>, second: Option<JsonView>) -> Option<JsonView> {
    match first {
        Some(value) => Some(value),
        None => second,
    }
}

/// The text of a value, else another text.
pub open spec fn text_or(value: Option<JsonView>, other: Option<Seq<char>>) -> Option<Seq<char>> {
    match value {
        Some(inner) => match inner.text() {
            Some(text) => Some(text),
            None => other,
        },
        None => other,
    }
}

/// The account that the claims name, else the account before.
pub open spec fn claimed_account(
    access: Option<JsonView>,
    id: Option<JsonView>,
    previous: Option<StoredView>,
) -> Option<Seq<char>> {
    text_or(
        or_value(
            auth_claim(access, "chatgpt_account_id"@),
            auth_claim(id, "chatgpt_account_id"@),
        ),
        match previous {
            Some(stored) => Some(stored.account_id),
            None => None,
        },
    )
}

/// The user that the claims name, else the user before.
pub open spec fn claimed_user(
    access: Option<JsonView>,
    id: Option<JsonView>,
    previous: Option<StoredView>,
) -> Option<Seq<char>> {
    text_or(
        or_value(
            auth_claim(access, "chatgpt_user_id"@),
            or_value(
                auth_claim(access, "user_id"@),
                or_value(auth_claim(id, "chatgpt_user_id"@), auth_claim(id, "user_id"@)),
            ),
        ),
        match previous {
            Some(stored) => Some(stored.user_id),
            None => None,
        },
    )
}

/// The address that the claims name, else the address before.
pub open spec fn claimed_email(
    access: Option<JsonView>,
    id: Option<JsonView>,
    previous: Option<StoredView>,
) -> Option<Seq<char>> {
    text_or(
        or_value(
            top_claim(id, "email"@),
            or_value(profile_claim(id, "email"@), profile_claim(access, "email"@)),
        ),
        match previous {
            Some(stored) => stored.email,
            None => None,
        },
    )
}

/// When the token expires: as it claims, else as the response says.
pub open spec fn claimed_expiry(
    access: Option<JsonView>,
    expires_in: Option<u64>,
    at: u64,
) -> Option<u64> {
    let claimed = match top_claim(access, "exp"@) {
        Some(value) => value.unsigned(),
        None => None,
    };
    match claimed {
        Some(time) => Some(time),
        None => match expires_in {
            Some(seconds) => Some(crate::affinity::later(at, seconds)),
            None => None,
        },
    }
}

/// The refresh token of a response, else the one before.
pub open spec fn kept_refresh(
    response: ResponseView,
    previous: Option<StoredView>,
) -> Option<Seq<char>> {
    match response.refresh_token {
        Some(token) => Some(token),
        None => match previous {
            Some(stored) => Some(stored.refresh_token),
            None => None,
        },
    }
}

/// The tokens that a response gives, with the claims of its two tokens and the tokens before.
pub open spec fn response_tokens(
    response: ResponseView,
    access: Option<JsonView>,
    id: Option<JsonView>,
    previous: Option<StoredView>,
    at: u64,
) -> Result<StoredView, OauthError> {
    match response.access_token {
        None => Err(OauthError::NoAccessToken),
        Some(access_token) => match claimed_account(access, id, previous) {
            None => Err(OauthError::NoAccount),
            Some(account_id) => match claimed_user(access, id, previous) {
                None => Err(OauthError::NoUser),
                Some(user_id) => if previous matches Some(stored) && (stored.account_id
                    != account_id || stored.user_id != user_id) {
                    Err(OauthError::IdentityChanged)
                } else {
                    match claimed_expiry(access, response.expires_in, at) {
                        None => Err(OauthError::NoExpiry),
                        Some(expires_at) => if expires_at <= crate::affinity::later(at, 5) {
                            Err(OauthError::Expired)
                        } else {
                            match kept_refresh(response, previous) {
                                None => Err(OauthError::NoRefreshToken),
                                Some(refresh_token) => {
                                    let stored = StoredView {
                                        access_token,
                                        refresh_token,
                                        account_id,
                                        user_id,
                                        expires_at,
                                        email: claimed_email(access, id, previous),
                                        retry_after: 0,
                                        login_required: false,
                                    };
                                    match stored_error(stored) {
                                        Some(error) => Err(error),
                                        None => Ok(stored),
                                    }
                                },
                            }
                        },
                    }
                },
            },
        },
    }
}

/// The view of stored tokens that may be missing.
pub open spec fn stored_option(stored: Option<&StoredTokens>) -> Option<StoredView> {
    match stored {
        Some(inner) => Some(inner@),
        None => None,
    }
}

/// The tokens that a response gives.
pub open spec fn tokens_given(
    response: ResponseView,
    previous: Option<StoredView>,
    at: u64,
) -> Result<StoredView, OauthError> {
    let access = match response.access_token {
        Some(token) => claims_of(token),
        None => None,
    };
    let id = match response.id_token {
        Some(token) => claims_of(token),
        None => None,
    };
    response_tokens(response, access, id, previous, at)
}

fn auth_value<'a>(claims: Option<&'a Json>, name: &str) -> (value: Option<&'a Json>)
    ensures
        crate::json::seen(value) == auth_claim(crate::json::seen(claims), name@),
{
    match claims {
        Some(value) => value.pointer("https://api.openai.com/auth", name),
        None => None,
    }
}

fn profile_value<'a>(claims: Option<&'a Json>, name: &str) -> (value: Option<&'a Json>)
    ensures
        crate::json::seen(value) == profile_claim(crate::json::seen(claims), name@),
{
    match claims {
        Some(value) => value.pointer("https://api.openai.com/profile", name),
        None => None,
    }
}

fn top_value<'a>(claims: Option<&'a Json>, name: &str) -> (value: Option<&'a Json>)
    ensures
        crate::json::seen(value) == top_claim(crate::json::seen(claims), name@),
{
    match claims {
        Some(value) => value.get(name),
        None => None,
    }
}

fn first_value<'a>(first: Option<&'a Json>, second: Option<&'a Json>) -> (value: Option<&'a Json>)
    ensures
        crate::json::seen(value) == or_value(crate::json::seen(first), crate::json::seen(second)),
{
    match first {
        Some(value) => Some(value),
        None => second,
    }
}

fn text_value(value: Option<&Json>, other: Option<String>) -> (text: Option<String>)
    ensures
        crate::text::option_view(text) == text_or(
            crate::json::seen(value),
            crate::text::option_view(other),
        ),
{
    match value {
        Some(inner) => match inner.as_str() {
            Some(text) => Some(owned(text)),
            None => other,
        },
        None => other,
    }
}

/// The tokens that a response gives, with the claims of its two tokens and the tokens before.
pub fn tokens_from(
    response: TokenResponse,
    access: Option<&Json>,
    id: Option<&Json>,
    previous: Option<&StoredTokens>,
    at: u64,
) -> (result: Result<StoredTokens, OauthError>)
    ensures
        match result {
            Ok(stored) => response_tokens(
                response@,
                crate::json::seen(access),
                crate::json::seen(id),
                stored_option(previous),
                at,
            ) == Ok::<StoredView, OauthError>(stored@),
            Err(error) => response_tokens(
                response@,
                crate::json::seen(access),
                crate::json::seen(id),
                stored_option(previous),
                at,
            ) == Err::<StoredView, OauthError>(error),
        },
{
    let access_token = match response.access_token {
        Some(token) => token,
        None => return Err(OauthError::NoAccessToken),
    };
    let old_account: Option<String> = match previous {
        Some(stored) => Some(stored.account_id.clone()),
        None => None,
    };
    let account = first_value(
        auth_value(access, "chatgpt_account_id"),
        auth_value(id, "chatgpt_account_id"),
    );
    let account_id = match text_value(account, old_account) {
        Some(text) => text,
        None => return Err(OauthError::NoAccount),
    };
    let old_user: Option<String> = match previous {
        Some(stored) => Some(stored.user_id.clone()),
        None => None,
    };
    let user = first_value(
        auth_value(access, "chatgpt_user_id"),
        first_value(
            auth_value(access, "user_id"),
            first_value(auth_value(id, "chatgpt_user_id"), auth_value(id, "user_id")),
        ),
    );
    let user_id = match text_value(user, old_user) {
        Some(text) => text,
        None => return Err(OauthError::NoUser),
    };
    if let Some(stored) = previous {
        if !same(stored.account_id.as_str(), account_id.as_str()) || !same(
            stored.user_id.as_str(),
            user_id.as_str(),
        ) {
            return Err(OauthError::IdentityChanged);
        }
    }
    let claimed: Option<u64> = match top_value(access, "exp") {
        Some(value) => value.as_u64(),
        None => None,
    };
    let expires_at: u64 = match claimed {
        Some(time) => time,
        None => match response.expires_in {
            Some(seconds) => at.saturating_add(seconds),
            None => return Err(OauthError::NoExpiry),
        },
    };
    if expires_at <= at.saturating_add(5) {
        return Err(OauthError::Expired);
    }
    let refresh_token = match response.refresh_token {
        Some(token) => token,
        None => match previous {
            Some(stored) => stored.refresh_token.clone(),
            None => return Err(OauthError::NoRefreshToken),
        },
    };
    let old_email: Option<String> = match previous {
        Some(stored) => copy_option(&stored.email),
        None => None,
    };
    let address = first_value(
        top_value(id, "email"),
        first_value(profile_value(id, "email"), profile_value(access, "email")),
    );
    let stored = StoredTokens {
        access_token,
        refresh_token,
        account_id,
        user_id,
        expires_at,
        email: text_value(address, old_email),
        retry_after: 0,
        login_required: false,
    };
    match stored.validate() {
        Err(error) => Err(error),
        Ok(()) => Ok(stored),
    }
}

/// The tokens that a response gives.
pub fn from_response(
    response: TokenResponse,
    previous: Option<&StoredTokens>,
    at: u64,
) -> (result: Result<StoredTokens, OauthError>)
    ensures
        match result {
            Ok(stored) => tokens_given(response@, stored_option(previous), at) == Ok::<
                StoredView,
                OauthError,
            >(stored@),
            Err(error) => tokens_given(response@, stored_option(previous), at) == Err::<
                StoredView,
                OauthError,
            >(error),
        },
{
    let access: Option<Json> = match &response.access_token {
        Some(token) => claims(token.as_str()),
        None => None,
    };
    let id: Option<Json> = match &response.id_token {
        Some(token) => claims(token.as_str()),
        None => None,
    };
    tokens_from(response, access.as_ref(), id.as_ref(), previous, at)
}

/// The code of an error that a token endpoint answers.
pub open spec fn refusal_code(body: Option<JsonView>) -> Option<Seq<char>> {
    match body {
        Some(value) => match value.member_text("error"@) {
            Some(code) => Some(code),
            None => {
                let inner = match value.inner("error"@, "code"@) {
                    Some(code) => code.text(),
                    None => None,
                };
                match inner {
                    Some(code) => Some(code),
                    None => value.member_text("code"@),
                }
            },
        },
        None => None,
    }
}

/// The refresh token is lost for good.
pub open spec fn is_permanent(status: u16, code: Option<Seq<char>>) -> bool {
    &&& status == 400 || status == 401 || status == 403
    &&& code == Some("invalid_grant"@) || code == Some("refresh_token_expired"@) || code == Some(
        "refresh_token_reused"@,
    ) || code == Some("refresh_token_invalidated"@)
}

/// Whether a refusal of a token endpoint means that the refresh token is lost for good, given the
/// JSON value of its body.
pub fn refused_for_good(status: u16, body: Option<&Json>) -> (permanent: bool)
    ensures
        permanent == is_permanent(status, refusal_code(crate::json::seen(body))),
{
    let code: Option<&str> = match body {
        Some(value) => match value.text_at("error") {
            Some(code) => Some(code),
            None => {
                let inner: Option<&str> = match value.pointer("error", "code") {
                    Some(code) => code.as_str(),
                    None => None,
                };
                match inner {
                    Some(code) => Some(code),
                    None => value.text_at("code"),
                }
            },
        },
        None => None,
    };
    match code {
        Some(code) => (status == 400 || status == 401 || status == 403) && (same(
            code,
            "invalid_grant",
        ) || same(code, "refresh_token_expired") || same(code, "refresh_token_reused") || same(
            code,
            "refresh_token_invalidated",
        )),
        None => false,
    }
}

/// Whether a refusal of a token endpoint means that the refresh token is lost for good.
pub fn refusal(status: u16, bytes: &[u8]) -> (permanent: bool)
    ensures
        permanent == is_permanent(status, refusal_code(crate::json::json_value(bytes@))),
{
    let body = Json::parse(bytes);
    refused_for_good(status, body.as_ref())
}

/// What is to be done for a managed token.
pub enum Managed {
    /// Nothing: there is no token.
    Refuse(OauthError),
    /// Use this token.
    Use(Token),
    /// Ask for a renewal.
    Refresh,
}

/// The stored access token is the one that was rejected.
pub open spec fn stored_is_rejected(stored: StoredView, rejected: Option<Seq<char>>) -> bool {
    rejected == Some(stored.access_token)
}

/// The access token is good for some seconds more.
pub open spec fn outlasts(stored: StoredView, at: u64, seconds: u64) -> bool {
    stored.expires_at > crate::affinity::later(at, seconds)
}

fn is_stored_rejected(stored: &StoredTokens, rejected: Option<&str>) -> (yes: bool)
    ensures
        yes == stored_is_rejected(stored@, crate::json::read(rejected)),
{
    match rejected {
        Some(token) => same(token, stored.access_token.as_str()),
        None => false,
    }
}

/// What is to be done for a managed token at a given time, where an access token was rejected.
pub fn managed_plan(stored: &StoredTokens, rejected: Option<&str>, at: u64) -> (plan: Managed)
    ensures
        ({
            let is_rejected = stored_is_rejected(stored@, crate::json::read(rejected));
            if stored@.login_required {
                plan matches Managed::Refuse(error) && error == OauthError::LoginExpired
            } else if !is_rejected && outlasts(stored@, at, REFRESH_EARLY) {
                plan matches Managed::Use(token) && token@ == stored_token(stored@)
            } else if stored@.retry_after > at {
                if !is_rejected && outlasts(stored@, at, 5) {
                    plan matches Managed::Use(token) && token@ == stored_token(stored@)
                } else {
                    plan matches Managed::Refuse(error) && error == OauthError::Cooldown
                }
            } else {
                plan is Refresh
            }
        }),
{
    if stored.login_required {
        return Managed::Refuse(OauthError::LoginExpired);
    }
    let is_rejected = is_stored_rejected(stored, rejected);
    if !is_rejected && stored.expires_at > at.saturating_add(REFRESH_EARLY) {
        return Managed::Use(stored.token());
    }
    if stored.retry_after > at {
        if !is_rejected && stored.expires_at > at.saturating_add(5) {
            return Managed::Use(stored.token());
        }
        return Managed::Refuse(OauthError::Cooldown);
    }
    Managed::Refresh
}

/// What a renewal leads to: the tokens that are saved, and the token or the error.
pub struct Renewal {
    pub save: StoredTokens,
    pub token: Result<Token, OauthError>,
}

/// The tokens that are saved after a renewal. A renewal that was answered can have replaced the
/// refresh token even where its answer cannot be used: then the old one is not used again.
pub open spec fn renewed(
    stored: StoredView,
    response: Result<ResponseView, bool>,
    at: u64,
) -> StoredView {
    match response {
        Ok(answer) => match tokens_given(answer, Some(stored), at) {
            Ok(updated) => updated,
            Err(_) => StoredView { login_required: true, ..stored },
        },
        Err(permanent) => StoredView {
            login_required: permanent,
            retry_after: crate::affinity::later(at, REFRESH_RETRY),
            ..stored
        },
    }
}

/// The token after a renewal, or the error. A token that was not rejected is used as long as it is
/// good, where the renewal failed for now.
pub open spec fn renewed_token(
    stored: StoredView,
    is_rejected: bool,
    response: Result<ResponseView, bool>,
    at: u64,
) -> Result<TokenView, OauthError> {
    match response {
        Ok(answer) => match tokens_given(answer, Some(stored), at) {
            Ok(updated) => Ok(stored_token(updated)),
            Err(_) => Err(OauthError::InvalidRefresh),
        },
        Err(permanent) => if permanent {
            Err(OauthError::LoginExpired)
        } else if !is_rejected && outlasts(stored, at, 5) {
            Ok(stored_token(stored))
        } else {
            Err(OauthError::Unavailable)
        },
    }
}

/// The view of an answer to a renewal.
pub open spec fn answer_view(response: Result<TokenResponse, bool>) -> Result<ResponseView, bool> {
    match response {
        Ok(answer) => Ok(answer@),
        Err(permanent) => Err(permanent),
    }
}

/// Takes in the answer to a renewal at a given time: an answer of the endpoint, or whether the
/// refresh token is lost for good.
pub fn renew(
    stored: StoredTokens,
    rejected: Option<&str>,
    response: Result<TokenResponse, bool>,
    at: u64,
) -> (renewal: Renewal)
    ensures
        renewal.save@ == renewed(stored@, answer_view(response), at),
        match renewal.token {
            Ok(token) => renewed_token(
                stored@,
                stored_is_rejected(stored@, crate::json::read(rejected)),
                answer_view(response),
                at,
            ) == Ok::<TokenView, OauthError>(token@),
            Err(error) => renewed_token(
                stored@,
                stored_is_rejected(stored@, crate::json::read(rejected)),
                answer_view(response),
                at,
            ) == Err::<TokenView, OauthError>(error),
        },
{
    let is_rejected = is_stored_rejected(&stored, rejected);
    match response {
        Ok(answer) => match from_response(answer, Some(&stored), at) {
            Ok(updated) => {
                let token = updated.token();
                Renewal { save: updated, token: Ok(token) }
            },
            Err(_) => {
                let mut save = stored;
                save.login_required = true;
                Renewal { save, token: Err(OauthError::InvalidRefresh) }
            },
        },
        Err(permanent) => {
            let good = stored.expires_at > at.saturating_add(5);
            let token = stored.token();
            let mut save = stored;
            save.login_required = permanent;
            save.retry_after = at.saturating_add(REFRESH_RETRY);
            let token: Result<Token, OauthError> = if permanent {
                Err(OauthError::LoginExpired)
            } else if !is_rejected && good {
                Ok(token)
            } else {
                Err(OauthError::Unavailable)
            };
            Renewal { save, token }
        },
    }
}

/// The form that exchanges a code for tokens.
pub open spec fn exchange_pairs(
    code: Seq<char>,
    verifier: Seq<char>,
    redirect_uri: Seq<char>,
) -> Seq<(Seq<char>, Seq<char>)> {
    seq![
        ("grant_type"@, "authorization_code"@),
        ("client_id"@, client_id_text()),
        ("code"@, code),
        ("code_verifier"@, verifier),
        ("redirect_uri"@, redirect_uri),
    ]
}

/// The form that exchanges a code for tokens.
pub fn exchange_form(code: &str, verifier: &str, redirect_uri: &str) -> (form: Vec<(String, String)>)
    ensures
        crate::url::pair_views(form@) == exchange_pairs(code@, verifier@, redirect_uri@),
{
    let mut form: Vec<(String, String)> = Vec::new();
    form.push((owned("grant_type"), owned("authorization_code")));
    form.push((owned("client_id"), owned(client_id())));
    form.push((owned("code"), owned(code)));
    form.push((owned("code_verifier"), owned(verifier)));
    form.push((owned("redirect_uri"), owned(redirect_uri)));
    assert(crate::url::pair_views(form@) =~= exchange_pairs(code@, verifier@, redirect_uri@));
    form
}

/// The members of the JSON object that asks for a renewal.
pub fn refresh_form(stored: &StoredTokens) -> (form: Vec<(String, String)>)
    ensures
        crate::url::pair_views(form@) == seq![
            ("client_id"@, client_id_text()),
            ("grant_type"@, "refresh_token"@),
            ("refresh_token"@, stored@.refresh_token),
        ],
{
    let mut form: Vec<(String, String)> = Vec::new();
    form.push((owned("client_id"), owned(client_id())));
    form.push((owned("grant_type"), owned("refresh_token")));
    form.push((owned("refresh_token"), stored.refresh_token.clone()));
    assert(crate::url::pair_views(form@) =~= seq![
        ("client_id"@, client_id_text()),
        ("grant_type"@, "refresh_token"@),
        ("refresh_token"@, stored@.refresh_token),
    ]);
    form
}

/// Where the browser is sent back to.
pub open spec fn redirect_text(port: u16) -> Seq<char> {
    "http://localhost:"@ + crate::text::decimal_text(port as nat) + "/auth/callback"@
}

/// Where the browser is sent back to.
pub fn redirect_uri(port: u16) -> (uri: String)
    ensures
        uri@ == redirect_text(port),
{
    concat3("http://localhost:", decimal(port as u64).as_str(), "/auth/callback")
}

/// The challenge of a verifier: the base64 form of its SHA-256 digest.
pub fn challenge(verifier: &str) -> (text: String)
    ensures
        text@ == crate::codec::encoded(crate::codec::sha256(crate::text::utf8(verifier@))),
{
    hashed(verifier.as_bytes())
}

/// The names and values that a login is asked for with.
pub open spec fn authorize_pairs(
    redirect_uri: Seq<char>,
    challenge: Seq<char>,
    state: Seq<char>,
) -> Seq<(Seq<char>, Seq<char>)> {
    seq![
        ("response_type"@, "code"@),
        ("client_id"@, client_id_text()),
        ("redirect_uri"@, redirect_uri),
        ("scope"@, "openid profile email offline_access"@),
        ("code_challenge"@, challenge),
        ("code_challenge_method"@, "S256"@),
        ("state"@, state),
        ("id_token_add_organizations"@, "true"@),
        ("codex_cli_simplified_flow"@, "true"@),
        ("originator"@, "codex_cli_rs"@),
    ]
}

fn authorize_form(redirect_uri: &str, challenge: &str, state: &str) -> (form: Vec<(String, String)>)
    ensures
        crate::url::pair_views(form@) == authorize_pairs(redirect_uri@, challenge@, state@),
{
    let mut form: Vec<(String, String)> = Vec::new();
    form.push((owned("response_type"), owned("code")));
    form.push((owned("client_id"), owned(client_id())));
    form.push((owned("redirect_uri"), owned(redirect_uri)));
    form.push((owned("scope"), owned("openid profile email offline_access")));
    form.push((owned("code_challenge"), owned(challenge)));
    form.push((owned("code_challenge_method"), owned("S256")));
    form.push((owned("state"), owned(state)));
    form.push((owned("id_token_add_organizations"), owned("true")));
    form.push((owned("codex_cli_simplified_flow"), owned("true")));
    form.push((owned("originator"), owned("codex_cli_rs")));
    assert(crate::url::pair_views(form@) =~= authorize_pairs(redirect_uri@, challenge@, state@));
    form
}

/// The URL at which the user logs in; `None` where the issuer is no URL, or where it or the state
/// is too long for one.
pub fn authorize_url(issuer: &str, port: u16, verifier: &str, state: &str) -> (url: Option<String>)
    ensures
        crate::text::option_view(url) == crate::url::extended(
            issuer@ + "/oauth/authorize"@,
            authorize_pairs(
                redirect_text(port),
                crate::codec::encoded(crate::codec::sha256(crate::text::utf8(verifier@))),
                state@,
            ),
        ),
        url is Some <==> crate::url::url_parts(issuer@ + "/oauth/authorize"@) is Some
            && crate::url::pairs_size(
            authorize_pairs(
                redirect_text(port),
                crate::codec::encoded(crate::codec::sha256(crate::text::utf8(verifier@))),
                state@,
            ),
        ) <= crate::url::LONGEST_URL,
        url matches Some(text) ==> crate::url::carries(
            text@,
            issuer@ + "/oauth/authorize"@,
            authorize_pairs(
                redirect_text(port),
                crate::codec::encoded(crate::codec::sha256(crate::text::utf8(verifier@))),
                state@,
            ),
        ),
{
    let base = concat(issuer, "/oauth/authorize");
    let redirect = redirect_uri(port);
    let code = challenge(verifier);
    let form = authorize_form(redirect.as_str(), code.as_str(), state);
    crate::url::extend(base.as_str(), &form)
}

/// What a login callback is answered: the page, and what is handed to the login.
pub enum Callback {
    /// The callback is not one of this login.
    Invalid,
    /// The state is not that of this login.
    State,
    /// The user granted access: this code is exchanged for tokens.
    Code(String),
    /// The user denied access.
    Denied,
}

/// The values under a name.
pub open spec fn values(pairs: Seq<(Seq<char>, Seq<char>)>, name: Seq<char>) -> Seq<Seq<char>>
    decreases pairs.len(),
{
    if pairs.len() == 0 {
        Seq::empty()
    } else {
        let before = values(pairs.drop_last(), name);
        if pairs.last().0 == name {
            before.push(pairs.last().1)
        } else {
            before
        }
    }
}

fn values_of(pairs: &Vec<(String, String)>, name: &str) -> (found: Vec<String>)
    ensures
        crate::text::views(found@) == values(crate::url::pair_views(pairs@), name@),
{
    let ghost all = crate::url::pair_views(pairs@);
    let mut found: Vec<String> = Vec::new();
    let mut i: usize = 0;
    assert(crate::text::views(found@) =~= values(all.take(0), name@));
    while i < pairs.len()
        invariant
            i <= pairs@.len(),
            all == crate::url::pair_views(pairs@),
            crate::text::views(found@) == values(all.take(i as int), name@),
        decreases pairs@.len() - i,
    {
        assert(all.take(i + 1).drop_last() =~= all.take(i as int));
        assert(all.take(i + 1).last() == (pairs@[i as int].0@, pairs@[i as int].1@));
        let ghost before = crate::text::views(found@);
        if same(pairs[i].0.as_str(), name) {
            found.push(pairs[i].1.clone());
            assert(crate::text::views(found@) =~= before.push(pairs@[i as int].1@));
        }
        i = i + 1;
    }
    assert(all.take(pairs@.len() as int) =~= all);
    found
}

/// A code that can be exchanged.
pub open spec fn valid_code(code: Seq<char>) -> bool {
    0 < crate::text::utf8(code).len() <= 4_096
}

/// The host of a callback is this machine.
pub open spec fn is_local_host(host: Option<Seq<char>>, port: u16) -> bool {
    let number = crate::text::decimal_text(port as nat);
    host == Some("localhost:"@ + number) || host == Some("127.0.0.1:"@ + number)
}

/// Whether the host of a callback is this machine.
pub fn local_host(host: Option<&str>, port: u16) -> (yes: bool)
    ensures
        yes == is_local_host(crate::json::read(host), port),
{
    let number = decimal(port as u64);
    match host {
        Some(text) => same(text, concat("localhost:", number.as_str()).as_str()) || same(
            text,
            concat("127.0.0.1:", number.as_str()).as_str(),
        ),
        None => false,
    }
}

/// What the query of a callback says.
pub fn read_callback(pairs: &Vec<(String, String)>, state: &str) -> (callback: Callback)
    ensures
        ({
            let all = crate::url::pair_views(pairs@);
            let states = values(all, "state"@);
            let codes = values(all, "code"@);
            let errors = values(all, "error"@);
            if states.len() != 1 || states[0] != state@ {
                callback is State
            } else if codes.len() == 1 && errors.len() == 0 && valid_code(codes[0]) {
                callback matches Callback::Code(code) && code@ == codes[0]
            } else if codes.len() == 0 && errors.len() == 1 {
                callback is Denied
            } else {
                callback is Invalid
            }
        }),
{
    let states = values_of(pairs, "state");
    let ghost state_views = crate::text::views(states@);
    assert(states@.len() > 0 ==> state_views[0] == states@[0]@);
    if states.len() != 1 || !same(states[0].as_str(), state) {
        return Callback::State;
    }
    let codes = values_of(pairs, "code");
    let errors = values_of(pairs, "error");
    let ghost code_views = crate::text::views(codes@);
    let ghost error_views = crate::text::views(errors@);
    assert(codes@.len() > 0 ==> code_views[0] == codes@[0]@);
    assert(errors@.len() == error_views.len());
    if codes.len() == 1 && errors.len() == 0 {
        let length: usize = byte_len(codes[0].as_str());
        if 0 < length && length <= 4_096 {
            return Callback::Code(codes[0].clone());
        }
    }
    if codes.len() == 0 && errors.len() == 1 {
        Callback::Denied
    } else {
        Callback::Invalid
    }
}

/// What a login callback is answered, given its host, whether it has an origin, and its URI.
pub fn callback(
    host: Option<&str>,
    has_origin: bool,
    uri: &str,
    port: u16,
    state: &str,
) -> (callback: Callback)
    ensures
        !is_local_host(crate::json::read(host), port) || has_origin ==> callback is Invalid,
        crate::url::query_of("http://localhost"@ + uri@) is None ==> callback is Invalid,
        callback matches Callback::Code(code) ==> {
            let pairs = crate::url::query_of("http://localhost"@ + uri@)->Some_0;
            &&& is_local_host(crate::json::read(host), port)
            &&& !has_origin
            &&& values(pairs, "state"@) == seq![state@]
            &&& values(pairs, "code"@) == seq![code@]
            &&& values(pairs, "error"@).len() == 0
            &&& valid_code(code@)
        },
        is_local_host(crate::json::read(host), port) && !has_origin ==> (match crate::url::query_of(
            "http://localhost"@ + uri@,
        ) {
            Some(pairs) => {
                let states = values(pairs, "state"@);
                let codes = values(pairs, "code"@);
                let errors = values(pairs, "error"@);
                if states.len() != 1 || states[0] != state@ {
                    callback is State
                } else if codes.len() == 1 && errors.len() == 0 && valid_code(codes[0]) {
                    callback matches Callback::Code(code) && code@ == codes[0]
                } else if codes.len() == 0 && errors.len() == 1 {
                    callback is Denied
                } else {
                    callback is Invalid
                }
            },
            None => callback is Invalid,
        }),
{
    if !local_host(host, port) || has_origin {
        return Callback::Invalid;
    }
    let url = concat("http://localhost", uri);
    match crate::url::read_query(url.as_str()) {
        Some(pairs) => {
            let result = read_callback(&pairs, state);
            proof {
                let all = crate::url::pair_views(pairs@);
                if let Callback::Code(code) = &result {
                    assert(values(all, "state"@) =~= seq![state@]);
                    assert(values(all, "code"@) =~= seq![code@]);
                }
            }
            result
        },
        None => Callback::Invalid,
    }
}

/// The page that a login callback is answered with: its status and its text. `first` tells whether
/// no callback was taken before.
pub fn callback_page(callback: &Callback, first: bool) -> (page: (u16, &'static str))
    ensures
        match *callback {
            Callback::Invalid => page.0 == 400 && page.1@ == "Invalid login callback."@,
            Callback::State => page.0 == 400 && page.1@ == "Invalid login state."@,
            _ => if first {
                page.0 == 200 && page.1@
                    == "Authorization received. Return to the terminal to finish login."@
            } else {
                page.0 == 409 && page.1@ == "Login callback already received."@
            },
        },
{
    match callback {
        Callback::Invalid => (400, "Invalid login callback."),
        Callback::State => (400, "Invalid login state."),
        _ => if first {
            (200, "Authorization received. Return to the terminal to finish login.")
        } else {
            (409, "Login callback already received.")
        },
    }
}

/// The headers of every page that a login callback is answered with.
pub fn page_headers() -> (headers: Vec<(String, String)>)
    ensures
        crate::url::pair_views(headers@) == seq![
            ("cache-control"@, "no-store"@),
            ("referrer-policy"@, "no-referrer"@),
            ("content-security-policy"@, "default-src 'none'"@),
        ],
{
    let mut headers: Vec<(String, String)> = Vec::new();
    headers.push((owned("cache-control"), owned("no-store")));
    headers.push((owned("referrer-policy"), owned("no-referrer")));
    headers.push((owned("content-security-policy"), owned("default-src 'none'")));
    assert(crate::url::pair_views(headers@) =~= seq![
        ("cache-control"@, "no-store"@),
        ("referrer-policy"@, "no-referrer"@),
        ("content-security-policy"@, "default-src 'none'"@),
    ]);
    headers
}

/// A renewal never changes whose tokens they are, and valid tokens stay valid.
pub proof fn renewal_keeps_the_identity(
    stored: StoredView,
    response: Result<ResponseView, bool>,
    at: u64,
)
    requires
        stored_error(stored) is None,
    ensures
        renewed(stored, response, at).account_id == stored.account_id,
        renewed(stored, response, at).user_id == stored.user_id,
        stored_error(renewed(stored, response, at)) is None,
{
}

/// A renewal that brings no new refresh token keeps the old one.
pub proof fn omitted_refresh_token_is_kept(stored: StoredView, response: ResponseView, at: u64)
    requires
        response.refresh_token is None,
    ensures
        renewed(stored, Ok(response), at).refresh_token == stored.refresh_token,
{
}

/// After a refresh token is lost, or an answer could not be used, a login is required, and no
/// renewal is tried again.
pub proof fn lost_refresh_token_requires_login(
    stored: StoredView,
    response: Result<ResponseView, bool>,
    at: u64,
)
    requires
        response == Err::<ResponseView, bool>(true) || (response matches Ok(answer)
            && tokens_given(answer, Some(stored), at) is Err),
    ensures
        renewed(stored, response, at).login_required,
        forall|is_rejected: bool| #[trigger]
            renewed_token(stored, is_rejected, response, at) is Err,
{
}

/// After a renewal that failed for now, the next is put off, and a token that is still good and was
/// not rejected is used meanwhile.
pub proof fn failed_renewal_keeps_a_good_token(stored: StoredView, at: u64)
    requires
        outlasts(stored, at, 5),
        !stored.login_required,
        at < u64::MAX - REFRESH_RETRY,
    ensures
        renewed_token(stored, false, Err(false), at) == Ok::<TokenView, OauthError>(
            stored_token(stored),
        ),
        renewed(stored, Err(false), at).retry_after > at,
        !renewed(stored, Err(false), at).login_required,
        renewed(stored, Err(false), at).access_token == stored.access_token,
{
}

/// A renewed token outlasts the next seconds.
pub proof fn renewed_token_is_good(stored: StoredView, response: ResponseView, at: u64)
    requires
        tokens_given(response, Some(stored), at) is Ok,
    ensures
        renewed(stored, Ok(response), at).expires_at > crate::affinity::later(at, 5),
        !renewed(stored, Ok(response), at).login_required,
{
}

/// The claim of a token under the name of a group.
pub open spec fn grouped(claims: Option<JsonView>, group: Seq<char>, name: Seq<char>) -> Option<
    JsonView,
> {
    match claims {
        Some(value) => match value.member(group) {
            Some(inner) => inner.member(name),
            None => None,
        },
        None => None,
    }
}

/// The account of a login is the one that the access token claims, or else the identity token, or
/// else the one before; the same holds of the user, under either of its two names.
pub proof fn identity_is_claimed(
    access: Option<JsonView>,
    id: Option<JsonView>,
    previous: Option<StoredView>,
    text: Seq<char>,
)
    ensures
        ({
            let auth = "https://api.openai.com/auth"@;
            let first = grouped(access, auth, "chatgpt_account_id"@);
            let second = grouped(id, auth, "chatgpt_account_id"@);
            let account = claimed_account(access, id, previous);
            &&& first == Some(JsonView::Text(text)) ==> account == Some(text)
            &&& first is None && second == Some(JsonView::Text(text)) ==> account == Some(text)
            &&& first is None && second is None ==> account == match previous {
                Some(stored) => Some(stored.account_id),
                None => None,
            }
        }),
        ({
            let auth = "https://api.openai.com/auth"@;
            let first = grouped(access, auth, "chatgpt_user_id"@);
            let second = grouped(access, auth, "user_id"@);
            let third = grouped(id, auth, "chatgpt_user_id"@);
            let fourth = grouped(id, auth, "user_id"@);
            let user = claimed_user(access, id, previous);
            &&& first == Some(JsonView::Text(text)) ==> user == Some(text)
            &&& first is None && second == Some(JsonView::Text(text)) ==> user == Some(text)
            &&& first is None && second is None && third == Some(JsonView::Text(text)) ==> user
                == Some(text)
            &&& first is None && second is None && third is None && fourth == Some(
                JsonView::Text(text),
            ) ==> user == Some(text)
            &&& first is None && second is None && third is None && fourth is None ==> user == match
            previous {
                Some(stored) => Some(stored.user_id),
                None => None,
            }
        }),
        ({
            let profile = "https://api.openai.com/profile"@;
            let first = match id {
                Some(value) => value.member("email"@),
                None => None,
            };
            let second = grouped(id, profile, "email"@);
            let third = grouped(access, profile, "email"@);
            let email = claimed_email(access, id, previous);
            &&& first == Some(JsonView::Text(text)) ==> email == Some(text)
            &&& first is None && second == Some(JsonView::Text(text)) ==> email == Some(text)
            &&& first is None && second is None && third == Some(JsonView::Text(text)) ==> email
                == Some(text)
            &&& first is None && second is None && third is None ==> email == match previous {
                Some(stored) => stored.email,
                None => None,
            }
        }),
{
    crate::json::values_are_read_as_what_they_are(JsonView::Text(text));
}

/// A token expires when it claims to, or else as long from now as the response says.
pub proof fn expiry_is_claimed(
    access: Option<JsonView>,
    expires_in: Option<u64>,
    at: u64,
    time: u64,
)
    ensures
        access is Some && access->Some_0.member_unsigned("exp"@) == Some(time) ==> claimed_expiry(
            access,
            expires_in,
            at,
        ) == Some(time),
        (access is None || access->Some_0.member_unsigned("exp"@) is None) && expires_in is None
            ==> claimed_expiry(access, expires_in, at) is None,
        (access is None || access->Some_0.member_unsigned("exp"@) is None) && expires_in == Some(
            time,
        ) && at + time <= u64::MAX ==> claimed_expiry(access, expires_in, at) == Some(
            (at + time) as u64,
        ),
{
    if access is Some {
        crate::json::members_are_read_as_what_they_are(access->Some_0, "exp"@);
    }
}

/// A response is taken exactly where it has an access token, an account, a user that are those of
/// before, an expiry more than five seconds ahead, a refresh token of its own or from before, and all
/// of it can be stored; what is stored is what it says, with no wait and no login to ask for.
pub proof fn responses_are_taken_whole(
    response: ResponseView,
    access: Option<JsonView>,
    id: Option<JsonView>,
    previous: Option<StoredView>,
    at: u64,
)
    requires
        at + 5 <= u64::MAX,
    ensures
        ({
            let result = response_tokens(response, access, id, previous, at);
            let account = claimed_account(access, id, previous);
            let user = claimed_user(access, id, previous);
            let expiry = claimed_expiry(access, response.expires_in, at);
            let refresh = if response.refresh_token is Some {
                response.refresh_token
            } else {
                match previous {
                    Some(stored) => Some(stored.refresh_token),
                    None => None,
                }
            };
            &&& result matches Ok(stored) ==> {
                &&& Some(stored.access_token) == response.access_token
                &&& Some(stored.account_id) == account
                &&& Some(stored.user_id) == user
                &&& Some(stored.expires_at) == expiry
                &&& Some(stored.refresh_token) == refresh
                &&& stored.email == claimed_email(access, id, previous)
                &&& stored.retry_after == 0
                &&& !stored.login_required
                &&& stored.expires_at > at + 5
                &&& previous is Some ==> stored.account_id == previous->Some_0.account_id
                    && stored.user_id == previous->Some_0.user_id
                &&& stored_error(stored) is None
            }
            &&& result == Err::<StoredView, OauthError>(OauthError::NoAccessToken)
                <==> response.access_token is None
            &&& result == Err::<StoredView, OauthError>(OauthError::NoAccount)
                <==> response.access_token is Some && account is None
            &&& result == Err::<StoredView, OauthError>(OauthError::NoUser)
                <==> response.access_token is Some && account is Some && user is None
            &&& result == Err::<StoredView, OauthError>(OauthError::IdentityChanged)
                <==> response.access_token is Some && account is Some && user is Some && previous
                is Some && (account != Some(previous->Some_0.account_id) || user != Some(
                previous->Some_0.user_id,
            ))
        }),
{
}

/// What can be stored: a user and an account of 1 to 256 bytes, the account fit for a header, and
/// two tokens of 1 to 65,536 visible characters.
pub proof fn stored_tokens_are_bounded(stored: StoredView)
    ensures
        ({
            let user = crate::text::utf8(stored.user_id).len();
            let account = crate::text::utf8(stored.account_id).len();
            let access = crate::text::utf8(stored.access_token).len();
            let refresh = crate::text::utf8(stored.refresh_token).len();
            stored_error(stored) is None <==> {
                &&& 1 <= user <= 256
                &&& 1 <= account <= 256 && crate::headers::header_value(stored.account_id)
                &&& 1 <= access <= 65_536 && crate::text::visible_ascii(stored.access_token)
                &&& 1 <= refresh <= 65_536 && crate::text::visible_ascii(stored.refresh_token)
            }
        }),
{
}

/// A refused renewal ends the login exactly where its status is 400, 401 or 403 and its code says
/// that the refresh token is of no more use.
pub proof fn lost_logins_are_told_by_their_code(status: u16, code: Option<Seq<char>>)
    ensures
        is_permanent(status, code) <==> (status == 400 || status == 401 || status == 403) && code
            is Some && (code->Some_0 == "invalid_grant"@ || code->Some_0 == "refresh_token_expired"@
            || code->Some_0 == "refresh_token_reused"@ || code->Some_0
            == "refresh_token_invalidated"@),
{
}

/// The code of a refusal is its `error` where that is a text, or else the `code` in its `error`, or
/// else its own `code`.
pub proof fn refusals_have_a_code(value: JsonView, error: JsonView, text: Seq<char>)
    ensures
        value.member_text("error"@) == Some(text) ==> refusal_code(Some(value)) == Some(text),
        value.member("error"@) == Some(error) && error.member_text("code"@) == Some(text)
            && value.member_text("error"@) is None ==> refusal_code(Some(value)) == Some(text),
        value.member("error"@) is None && value.member_text("code"@) == Some(text) ==> refusal_code(
            Some(value),
        ) == Some(text),
        refusal_code(None) is None,
{
    crate::json::members_are_read_as_what_they_are(value, "error"@);
    crate::json::members_are_read_as_what_they_are(error, "code"@);
}

/// After a renewal that failed for now the next one waits half a minute; the tokens stay.
pub proof fn failed_renewal_waits_half_a_minute(stored: StoredView, permanent: bool, at: u64)
    requires
        at + 30 <= u64::MAX,
    ensures
        ({
            let after = renewed(stored, Err(permanent), at);
            &&& after.retry_after == at + 30
            &&& after.login_required == permanent
            &&& after.access_token == stored.access_token
            &&& after.refresh_token == stored.refresh_token
            &&& after.expires_at == stored.expires_at
            &&& after.account_id == stored.account_id && after.user_id == stored.user_id
            &&& after.email == stored.email
        }),
        permanent ==> renewed_token(stored, false, Err(permanent), at) == Err::<
            TokenView,
            OauthError,
        >(OauthError::LoginExpired),
        !permanent && stored.expires_at <= at + 5 ==> renewed_token(
            stored,
            false,
            Err(permanent),
            at,
        ) == Err::<TokenView, OauthError>(OauthError::Unavailable),
        !permanent ==> renewed_token(stored, true, Err(permanent), at) == Err::<
            TokenView,
            OauthError,
        >(OauthError::Unavailable),
{
}

/// A token outlasts some seconds exactly where it expires after them.
pub proof fn tokens_outlast_until_they_expire(stored: StoredView, at: u64, seconds: u64)
    requires
        at + seconds <= u64::MAX,
    ensures
        outlasts(stored, at, seconds) <==> stored.expires_at > at + seconds,
        REFRESH_EARLY == 5 * 60,
        REFRESH_RETRY == 30,
{
}

/// What is sent for a code: the grant, the client, the code, its verifier and where it came to.
pub proof fn exchange_sends_the_code(
    code: Seq<char>,
    verifier: Seq<char>,
    redirect_uri: Seq<char>,
)
    ensures
        ({
            let pairs = exchange_pairs(code, verifier, redirect_uri);
            &&& pairs.len() == 5
            &&& pairs.contains(("grant_type"@, "authorization_code"@))
            &&& pairs.contains(("client_id"@, "app_EMoamEEZ73f0CkXaXp7hrann"@))
            &&& pairs.contains(("code"@, code))
            &&& pairs.contains(("code_verifier"@, verifier))
            &&& pairs.contains(("redirect_uri"@, redirect_uri))
        }),
{
    let pairs = exchange_pairs(code, verifier, redirect_uri);
    assert(pairs[0] == ("grant_type"@, "authorization_code"@));
    assert(pairs[1] == ("client_id"@, "app_EMoamEEZ73f0CkXaXp7hrann"@));
    assert(pairs[2] == ("code"@, code));
    assert(pairs[3] == ("code_verifier"@, verifier));
    assert(pairs[4] == ("redirect_uri"@, redirect_uri));
}

/// What a login asks for: a code for the client, with an S256 challenge and the state of the login.
pub proof fn login_asks_for_a_code(
    redirect_uri: Seq<char>,
    challenge: Seq<char>,
    state: Seq<char>,
)
    ensures
        ({
            let pairs = authorize_pairs(redirect_uri, challenge, state);
            &&& pairs.len() == 10
            &&& pairs.contains(("response_type"@, "code"@))
            &&& pairs.contains(("client_id"@, "app_EMoamEEZ73f0CkXaXp7hrann"@))
            &&& pairs.contains(("redirect_uri"@, redirect_uri))
            &&& pairs.contains(("scope"@, "openid profile email offline_access"@))
            &&& pairs.contains(("code_challenge"@, challenge))
            &&& pairs.contains(("code_challenge_method"@, "S256"@))
            &&& pairs.contains(("state"@, state))
            &&& pairs.contains(("id_token_add_organizations"@, "true"@))
            &&& pairs.contains(("codex_cli_simplified_flow"@, "true"@))
            &&& pairs.contains(("originator"@, "codex_cli_rs"@))
        }),
{
    let pairs = authorize_pairs(redirect_uri, challenge, state);
    assert(pairs[0] == ("response_type"@, "code"@));
    assert(pairs[1] == ("client_id"@, "app_EMoamEEZ73f0CkXaXp7hrann"@));
    assert(pairs[2] == ("redirect_uri"@, redirect_uri));
    assert(pairs[3] == ("scope"@, "openid profile email offline_access"@));
    assert(pairs[4] == ("code_challenge"@, challenge));
    assert(pairs[5] == ("code_challenge_method"@, "S256"@));
    assert(pairs[6] == ("state"@, state));
    assert(pairs[7] == ("id_token_add_organizations"@, "true"@));
    assert(pairs[8] == ("codex_cli_simplified_flow"@, "true"@));
    assert(pairs[9] == ("originator"@, "codex_cli_rs"@));
}

/// A callback comes to this machine under one of its two names, with the port of the login.
pub proof fn callbacks_come_to_this_machine(host: Option<Seq<char>>, port: u16)
    ensures
        is_local_host(host, port) <==> host is Some && (host->Some_0 == "localhost:"@
            + crate::text::decimal_text(port as nat) || host->Some_0 == "127.0.0.1:"@
            + crate::text::decimal_text(port as nat)),
        redirect_text(port) == "http://localhost:"@ + crate::text::decimal_text(port as nat)
            + "/auth/callback"@,
{
}

/// The values of a name are those of all its pairs, and of no other pair.
pub proof fn values_are_those_of_the_name(
    pairs: Seq<(Seq<char>, Seq<char>)>,
    name: Seq<char>,
    value: Seq<char>,
)
    ensures
        values(pairs, name).contains(value) <==> pairs.contains((name, value)),
        values(pairs, name).len() <= pairs.len(),
    decreases pairs.len(),
{
    if pairs.len() > 0 {
        let rest = pairs.drop_last();
        let before = values(rest, name);
        let all = values(pairs, name);
        values_are_those_of_the_name(rest, name, value);
        if rest.contains((name, value)) {
            assert(pairs[rest.index_of((name, value))] == (name, value));
            assert(all[before.index_of(value)] == value);
        }
        if pairs.contains((name, value)) {
            let i = pairs.index_of((name, value));
            if i < rest.len() {
                assert(rest[i] == (name, value));
            } else {
                assert(all.last() == value);
            }
        }
        if all.contains(value) {
            let k = all.index_of(value);
            if k < before.len() {
                assert(before[k] == value);
            } else {
                assert(pairs[pairs.len() - 1] == (name, value));
            }
        }
    }
}

proof fn lemma_part(text: Seq<char>, part: Seq<char>, more: Seq<char>)
    requires
        !part.contains('.'),
        text == part || text == part + "."@ + more,
    ensures
        part_length(text) == part.len(),
    decreases part.len(),
{
    reveal_strlit(".");
    if part.len() == 0 {
        if text != part {
            assert(text[0] == '.');
        }
    } else {
        assert(part[0] != '.');
        assert(text[0] == part[0]);
        let rest = part.drop_first();
        assert forall|i: int| 0 <= i < rest.len() implies rest[i] != '.' by {
            assert(rest[i] == part[i + 1]);
            assert(part.contains(part[i + 1]));
        }
        if text == part {
            lemma_part(text.drop_first(), rest, more);
        } else {
            assert(text.drop_first() =~= rest + "."@ + more);
            lemma_part(text.drop_first(), rest, more);
        }
    }
}

/// The claims of a token stand in the second of the parts that its dots make.
pub proof fn claims_stand_in_the_second_part(
    token: Seq<char>,
    first: Seq<char>,
    second: Seq<char>,
    third: Seq<char>,
)
    requires
        !first.contains('.'),
        !second.contains('.'),
        token == first + "."@ + second || token == first + "."@ + (second + "."@ + third),
    ensures
        second_part(token) == Some(second),
{
    reveal_strlit(".");
    let rest = if token == first + "."@ + second {
        second
    } else {
        second + "."@ + third
    };
    assert(token == first + "."@ + rest);
    lemma_part(token, first, rest);
    assert(token.skip(first.len() as int + 1) =~= rest);
    lemma_part(rest, second, third);
    assert(rest.take(second.len() as int) =~= second);
}

/// What is said of tokens that cannot be had, stored or renewed.
pub proof fn login_errors_are_worded()
    ensures
        error_text(OauthError::UserIdentity) == "invalid managed user identity"@,
        error_text(OauthError::AccessToken) == "invalid managed access token"@,
        error_text(OauthError::RefreshToken) == "invalid managed refresh token"@,
        error_text(OauthError::AccountIdentity) == "invalid managed account identity"@,
        error_text(OauthError::NoAccessToken) == "OAuth response has no access token"@,
        error_text(OauthError::NoAccount) == "OAuth response has no ChatGPT account identity"@,
        error_text(OauthError::NoUser) == "OAuth response has no ChatGPT user identity"@,
        error_text(OauthError::IdentityChanged)
            == "refreshed account identity changed; run tcx login again"@,
        error_text(OauthError::NoExpiry) == "OAuth response has no access token expiry"@,
        error_text(OauthError::Expired) == "OAuth response contains an expired access token"@,
        error_text(OauthError::NoRefreshToken) == "OAuth response has no refresh token"@,
        error_text(OauthError::LoginExpired) == "account login expired; run tcx login again"@,
        error_text(OauthError::Cooldown) == "account refresh is in cooldown"@,
        error_text(OauthError::InvalidRefresh)
            == "invalid refreshed credentials; run tcx login again"@,
        error_text(OauthError::Unavailable) == "account refresh unavailable; retry shortly"@,
{
}

/// A token without a dot has no claims, and what is read of a response is bounded.
pub proof fn tokens_without_parts_claim_nothing(token: Seq<char>)
    requires
        !token.contains('.'),
    ensures
        second_part(token) is None,
        claims_of(token) is None,
        RESPONSE_LIMIT == 1024 * 1024,
{
    lemma_part(token, token, Seq::empty());
}

/// The stored token is rejected where the rejected one is its access token, and nowhere else.
pub proof fn only_the_rejected_token_is_renewed(stored: StoredView, token: Seq<char>)
    ensures
        stored_is_rejected(stored, Some(token)) <==> token == stored.access_token,
        !stored_is_rejected(stored, None),
        stored_token(stored).access_token == stored.access_token,
        stored_token(stored).account_id == Some(stored.account_id),
        stored_token(stored).user_id == Some(stored.user_id),
        stored_token(stored).expires_at == Some(stored.expires_at),
{
}

} // verus!
