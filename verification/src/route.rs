//! What a request to the proxy asks for, and what a request that is not taken is answered.
use crate::headers::has;
use crate::headers::text_of;
use crate::headers::Header;
use crate::headers::HeaderView;
use crate::json::Json;
use crate::json::JsonView;
use crate::pool::AccountStateView;
use crate::pool::Pool;
use crate::pool::PoolView;
use crate::reply::error;
use crate::reply::routing_error;
use crate::reply::Reply;
use crate::reply::ReplyView;
use crate::text::byte_len;
use crate::text::owned;
use crate::text::same;
use crate::text::strip_prefix;
use crate::text::strip_suffix;
use vstd::prelude::*;
use vstd::string::*;

verus! {

/// How many bytes a request may hold.
pub const MAX_BODY: usize = 16_777_216;

/// How many bytes a request that enables an account may hold.
pub const CONTROL_LIMIT: usize = 1_024;

/// How many bytes a request that redeems a reset credit may hold.
pub const RESET_LIMIT: usize = 4_096;

/// The method of a request.
#[derive(Clone, Copy, Debug, PartialEq, Eq, Structural)]
pub enum Method {
    Get,
    Post,
    Other,
}

/// What a request asks for.
#[derive(Debug)]
pub enum Route {
    /// Nothing that is given: this is the answer.
    Refused(Reply),
    Health,
    Status,
    Reload,
    /// Enable or disable the account of this name.
    Enabled(String),
    /// List the reset credits of the account of this name.
    Credits(String),
    /// Redeem a reset credit of the account of this name.
    Reset(String),
    /// An upstream answer, from this endpoint.
    Inference(String),
}

/// What a request asks for.
pub enum RouteView {
    Refused(ReplyView),
    Health,
    Status,
    Reload,
    Enabled(Seq<char>),
    Credits(Seq<char>),
    Reset(Seq<char>),
    Inference(Seq<char>),
}

impl View for Route {
    type V = RouteView;

    open spec fn view(&self) -> RouteView {
        match self {
            Route::Refused(reply) => RouteView::Refused(reply@),
            Route::Health => RouteView::Health,
            Route::Status => RouteView::Status,
            Route::Reload => RouteView::Reload,
            Route::Enabled(name) => RouteView::Enabled(name@),
            Route::Credits(name) => RouteView::Credits(name@),
            Route::Reset(name) => RouteView::Reset(name@),
            Route::Inference(endpoint) => RouteView::Inference(endpoint@),
        }
    }
}

/// The request holds the local token.
pub open spec fn is_authorized(headers: Seq<HeaderView>, expected: Seq<char>) -> bool {
    crate::headers::header_text(headers, "authorization"@) == Some("Bearer "@ + expected)
}

proof fn lemma_difference(difference: u8, a: u8, b: u8)
    ensures
        difference | (a ^ b) == 0 <==> difference == 0 && a == b,
{
    assert(difference | (a ^ b) == 0 <==> difference == 0 && a == b) by (bit_vector);
}

/// Whether two secrets are the same. Every byte is looked at, whatever the first difference.
fn same_secret(actual: &str, expected: &str) -> (yes: bool)
    ensures
        yes == (actual@ == expected@),
{
    let a = actual.as_bytes();
    let b = expected.as_bytes();
    let length: usize = if a.len() < b.len() {
        a.len()
    } else {
        b.len()
    };
    let mut difference: u8 = 0;
    let mut i: usize = 0;
    while i < length
        invariant
            i <= length,
            length <= a@.len(),
            length <= b@.len(),
            difference == 0 <==> forall|k: int| 0 <= k < i ==> #[trigger] a@[k] == b@[k],
        decreases length - i,
    {
        let left: u8 = a[i];
        let right: u8 = b[i];
        proof {
            lemma_difference(difference, left, right);
        }
        difference = difference | (left ^ right);
        i = i + 1;
    }
    let yes = a.len() == b.len() && difference == 0;
    proof {
        if yes {
            assert(a@ =~= b@);
        }
        if actual@ == expected@ {
            assert(a@ == b@);
        }
        vstd::utf8::encode_utf8_decode_utf8(actual@);
        vstd::utf8::encode_utf8_decode_utf8(expected@);
    }
    yes
}

/// Whether a request holds the local token.
pub fn authorized(headers: &Vec<Header>, expected: &str) -> (yes: bool)
    ensures
        yes == is_authorized(crate::headers::header_views(headers@), expected@),
{
    let text = match text_of(headers, "authorization") {
        Some(text) => text,
        None => return false,
    };
    proof {
        let whole = "Bearer "@ + expected@;
        if text@ == whole {
            assert("Bearer "@.is_prefix_of(text@)) by {
                assert(text@.subrange(0, "Bearer "@.len() as int) =~= "Bearer "@);
            }
        }
    }
    match strip_prefix(text, "Bearer ") {
        Some(actual) => {
            proof {
                let head = "Bearer "@;
                assert((head + actual@).skip(head.len() as int) =~= actual@);
                assert((head + expected@).skip(head.len() as int) =~= expected@);
            }
            same_secret(actual.as_str(), expected)
        },
        None => false,
    }
}

/// What stands between a prefix and a suffix.
pub open spec fn between(text: Seq<char>, prefix: Seq<char>, suffix: Seq<char>) -> Option<
    Seq<char>,
> {
    if prefix.is_prefix_of(text) && suffix.is_suffix_of(text.skip(prefix.len() as int)) {
        Some(text.subrange(prefix.len() as int, text.len() - suffix.len()))
    } else {
        None
    }
}

fn strip_both(text: &str, prefix: &str, suffix: &str) -> (middle: Option<String>)
    ensures
        crate::text::option_view(middle) == between(text@, prefix@, suffix@),
{
    match strip_prefix(text, prefix) {
        Some(rest) => {
            assert(text@.skip(prefix@.len() as int) =~= rest@);
            let middle = strip_suffix(rest.as_str(), suffix);
            proof {
                if let Some(inner) = &middle {
                    assert(text@.subrange(prefix@.len() as int, text@.len() - suffix@.len())
                        =~= inner@);
                }
            }
            middle
        },
        None => None,
    }
}

/// The endpoint that a path names: the path without the part that tells an API apart.
pub open spec fn endpoint_of(path: Seq<char>) -> Seq<char> {
    if "/v1"@.is_prefix_of(path) {
        path.skip("/v1"@.len() as int)
    } else if "/backend-api/codex"@.is_prefix_of(path) {
        path.skip("/backend-api/codex"@.len() as int)
    } else {
        path
    }
}

fn endpoint_in(path: &str) -> (endpoint: String)
    ensures
        endpoint@ == endpoint_of(path@),
{
    match strip_prefix(path, "/v1") {
        Some(rest) => {
            assert(path@.skip("/v1"@.len() as int) =~= rest@);
            rest
        },
        None => match strip_prefix(path, "/backend-api/codex") {
            Some(rest) => {
                assert(path@.skip("/backend-api/codex"@.len() as int) =~= rest@);
                rest
            },
            None => owned(path),
        },
    }
}

/// An endpoint that is asked of an upstream.
pub open spec fn is_inference(method: Method, endpoint: Seq<char>) -> bool {
    ||| method == Method::Post && (endpoint == "/responses"@ || endpoint == "/responses/compact"@)
    ||| method == Method::Get && endpoint == "/models"@
}

/// A request that is compressed.
pub open spec fn is_encoded(headers: Seq<HeaderView>) -> bool {
    crate::headers::has_header(headers, "content-encoding"@) && crate::headers::header_text(
        headers,
        "content-encoding"@,
    ) != Some("identity"@)
}

/// What a request asks for, once it holds the local token and comes from no browser.
pub open spec fn inner_route(method: Method, path: Seq<char>, headers: Seq<HeaderView>) -> RouteView {
    let enabled = between(path, "/accounts/"@, "/enabled"@);
    let credits = between(path, "/accounts/"@, "/reset-credits"@);
    let reset = between(path, "/accounts/"@, "/reset"@);
    if path == "/health"@ && method == Method::Get {
        RouteView::Health
    } else if path == "/status"@ && method == Method::Get {
        RouteView::Status
    } else if path == "/reload"@ && method == Method::Post {
        RouteView::Reload
    } else if let Some(name) = enabled {
        if method == Method::Post {
            RouteView::Enabled(name)
        } else {
            RouteView::Refused(crate::reply::plain(405, "method"@, "Use POST"@))
        }
    } else if let Some(name) = credits {
        if method == Method::Get {
            RouteView::Credits(name)
        } else {
            RouteView::Refused(crate::reply::plain(405, "method"@, "Use GET"@))
        }
    } else if let Some(name) = reset {
        if method == Method::Post {
            RouteView::Reset(name)
        } else {
            RouteView::Refused(crate::reply::plain(405, "method"@, "Use POST"@))
        }
    } else if !is_inference(method, endpoint_of(path)) {
        RouteView::Refused(
            crate::reply::plain(404, "route"@, "Unsupported endpoint or method"@),
        )
    } else if is_encoded(headers) {
        RouteView::Refused(
            crate::reply::plain(415, "encoding"@, "Send an uncompressed JSON request"@),
        )
    } else {
        RouteView::Inference(endpoint_of(path))
    }
}

/// What a request asks for.
pub open spec fn route_of(
    headers: Seq<HeaderView>,
    expected: Seq<char>,
    method: Method,
    path: Seq<char>,
) -> RouteView {
    if !is_authorized(headers, expected) {
        RouteView::Refused(
            crate::reply::plain(401, "unauthorized"@, "A valid local proxy token is required"@),
        )
    } else if crate::headers::has_header(headers, "origin"@) {
        RouteView::Refused(
            crate::reply::plain(403, "browser_request"@, "Browser requests are not supported"@),
        )
    } else {
        inner_route(method, path, headers)
    }
}

fn route_inside(method: Method, path: &str, headers: &Vec<Header>) -> (route: Route)
    ensures
        route@ == inner_route(method, path@, crate::headers::header_views(headers@)),
{
    if same(path, "/health") && method == Method::Get {
        return Route::Health;
    }
    if same(path, "/status") && method == Method::Get {
        return Route::Status;
    }
    if same(path, "/reload") && method == Method::Post {
        return Route::Reload;
    }
    if let Some(name) = strip_both(path, "/accounts/", "/enabled") {
        if method != Method::Post {
            return Route::Refused(error(405, "method", "Use POST"));
        }
        return Route::Enabled(name);
    }
    if let Some(name) = strip_both(path, "/accounts/", "/reset-credits") {
        if method != Method::Get {
            return Route::Refused(error(405, "method", "Use GET"));
        }
        return Route::Credits(name);
    }
    if let Some(name) = strip_both(path, "/accounts/", "/reset") {
        if method != Method::Post {
            return Route::Refused(error(405, "method", "Use POST"));
        }
        return Route::Reset(name);
    }
    let endpoint = endpoint_in(path);
    let valid = (method == Method::Post && (same(endpoint.as_str(), "/responses") || same(
        endpoint.as_str(),
        "/responses/compact",
    ))) || (method == Method::Get && same(endpoint.as_str(), "/models"));
    if !valid {
        return Route::Refused(error(404, "route", "Unsupported endpoint or method"));
    }
    let identity = match text_of(headers, "content-encoding") {
        Some(text) => same(text, "identity"),
        None => false,
    };
    if has(headers, "content-encoding") && !identity {
        return Route::Refused(error(415, "encoding", "Send an uncompressed JSON request"));
    }
    Route::Inference(endpoint)
}

/// What a request asks for, given the local token that is expected.
pub fn route(headers: &Vec<Header>, expected: &str, method: Method, path: &str) -> (route: Route)
    ensures
        route@ == route_of(crate::headers::header_views(headers@), expected@, method, path@),
{
    if !authorized(headers, expected) {
        return Route::Refused(
            error(401, "unauthorized", "A valid local proxy token is required"),
        );
    }
    if has(headers, "origin") {
        return Route::Refused(
            error(403, "browser_request", "Browser requests are not supported"),
        );
    }
    route_inside(method, path, headers)
}

/// The answer where a name is not that of an account.
pub open spec fn no_account() -> ReplyView {
    crate::reply::plain(404, "account"@, "Unknown account"@)
}

/// The answer where a name is not that of an account.
pub fn unknown_account() -> (reply: Reply)
    ensures
        reply@ == no_account(),
{
    error(404, "account", "Unknown account")
}

/// The answer where the body of a control request is too long or ended early.
pub open spec fn bad_control() -> ReplyView {
    crate::reply::plain(400, "body"@, "Invalid control body"@)
}

/// Whether a control request enables or disables, where it says so.
pub open spec fn enabled_member(value: Option<JsonView>) -> Option<bool> {
    match value {
        Some(inner) => inner.member_boolean("enabled"@),
        None => None,
    }
}

/// What is answered to a control request that enables or disables an account: whether it is enabled
/// from now on.
pub open spec fn switch_answer(
    pool: PoolView,
    name: Seq<char>,
    body: Option<Seq<u8>>,
) -> Result<bool, ReplyView> {
    match body {
        None => Err(bad_control()),
        Some(bytes) => match enabled_member(crate::json::json_value(bytes)) {
            None => Err(crate::reply::plain(400, "body"@, "Expected enabled boolean"@)),
            Some(enabled) => if crate::pool::first_named(pool.state.accounts, name) is Some {
                Ok(enabled)
            } else {
                Err(no_account())
            },
        },
    }
}

/// The bytes of a body that may be missing.
pub open spec fn body_view(body: Option<&[u8]>) -> Option<Seq<u8>> {
    match body {
        Some(bytes) => Some(bytes@),
        None => None,
    }
}

/// Reads whether a control request enables or disables, given the JSON value of its body.
pub fn read_enabled(value: Option<&Json>) -> (result: Result<bool, Reply>)
    ensures
        match result {
            Ok(enabled) => enabled_member(crate::json::seen(value)) == Some(enabled),
            Err(reply) => enabled_member(crate::json::seen(value)) is None && reply@
                == crate::reply::plain(400, "body"@, "Expected enabled boolean"@),
        },
{
    let enabled: Option<bool> = match value {
        Some(inner) => inner.bool_at("enabled"),
        None => None,
    };
    match enabled {
        Some(enabled) => Ok(enabled),
        None => Err(error(400, "body", "Expected enabled boolean")),
    }
}

/// What a request to redeem a reset credit names.
#[derive(Debug)]
pub struct ResetAsk {
    /// The credit; the upstream picks one where none is named.
    pub credit_id: Option<String>,
    /// The attempt; naming it again spends no second credit.
    pub request_id: Option<String>,
}

/// A text that is not empty.
pub open spec fn nonempty(text: Option<Seq<char>>) -> Option<Seq<char>> {
    match text {
        Some(inner) if inner.len() > 0 => Some(inner),
        _ => None,
    }
}

/// The text of a member that is not empty.
pub open spec fn member_nonempty(value: Option<JsonView>, name: Seq<char>) -> Option<Seq<char>> {
    match value {
        Some(inner) => nonempty(inner.member_text(name)),
        None => None,
    }
}

fn keep_nonempty(text: Option<&str>) -> (kept: Option<&str>)
    ensures
        crate::json::read(kept) == nonempty(crate::json::read(text)),
{
    match text {
        Some(inner) => if inner.unicode_len() > 0 {
            Some(inner)
        } else {
            None
        },
        None => None,
    }
}

fn member_in<'a>(value: Option<&'a Json>, name: &str) -> (text: Option<&'a str>)
    ensures
        crate::json::read(text) == member_nonempty(crate::json::seen(value), name@),
{
    match value {
        Some(inner) => keep_nonempty(inner.text_at(name)),
        None => None,
    }
}

fn own(text: Option<&str>) -> (owned_text: Option<String>)
    ensures
        crate::text::option_view(owned_text) == crate::json::read(text),
{
    match text {
        Some(inner) => Some(owned(inner)),
        None => None,
    }
}

/// Reads what a request to redeem a reset credit names, given the JSON value of its body.
pub fn read_reset(value: Option<&Json>) -> (result: Result<ResetAsk, Reply>)
    ensures
        match result {
            Ok(asked) => {
                &&& value matches Some(inner) && inner@ is Object
                &&& crate::text::option_view(asked.credit_id) == member_nonempty(
                    crate::json::seen(value),
                    "credit_id"@,
                )
                &&& crate::text::option_view(asked.request_id) == member_nonempty(
                    crate::json::seen(value),
                    "request_id"@,
                )
            },
            Err(reply) => !(value matches Some(inner) && inner@ is Object) && reply@
                == crate::reply::plain(400, "body"@, "Expected a JSON object"@),
        },
{
    match value {
        Some(inner) => if inner.is_object() {
            Ok(
                ResetAsk {
                    credit_id: own(member_in(value, "credit_id")),
                    request_id: own(member_in(value, "request_id")),
                },
            )
        } else {
            Err(error(400, "body", "Expected a JSON object"))
        },
        None => Err(error(400, "body", "Expected a JSON object")),
    }
}

/// Reads what a request to redeem a reset credit names. No body names nothing.
pub fn reset_ask(body: Option<&[u8]>) -> (result: Result<ResetAsk, Reply>)
    ensures
        match body_view(body) {
            None => result matches Err(reply) && reply@ == bad_control(),
            Some(bytes) => if bytes.len() == 0 {
                result matches Ok(asked) && asked.credit_id is None && asked.request_id is None
            } else {
                match crate::json::json_value(bytes) {
                    Some(value) if value is Object => result matches Ok(asked)
                        && crate::text::option_view(asked.credit_id) == member_nonempty(
                        Some(value),
                        "credit_id"@,
                    ) && crate::text::option_view(asked.request_id) == member_nonempty(
                        Some(value),
                        "request_id"@,
                    ),
                    _ => result matches Err(reply) && reply@ == crate::reply::plain(
                        400,
                        "body"@,
                        "Expected a JSON object"@,
                    ),
                }
            },
        },
{
    match body {
        None => Err(error(400, "body", "Invalid control body")),
        Some(bytes) => if bytes.len() == 0 {
            Ok(ResetAsk { credit_id: None, request_id: None })
        } else {
            let value = Json::parse(bytes);
            read_reset(value.as_ref())
        },
    }
}

impl Pool {
    /// Enables or disables an account as a control request asks; `body` is `None` where it was too
    /// long or ended early.
    pub fn switch(&mut self, name: &str, body: Option<&[u8]>) -> (result: Result<bool, Reply>)
        requires
            old(self).wf(),
        ensures
            final(self).wf(),
            match result {
                Ok(enabled) => {
                    &&& switch_answer(old(self)@, name@, body_view(body)) == Ok::<bool, ReplyView>(
                        enabled,
                    )
                    &&& final(self)@ == ({
                        let idx = crate::pool::first_named(
                            old(self)@.state.accounts,
                            name@,
                        )->Some_0 as int;
                        old(self)@.with_account(
                            idx,
                            AccountStateView {
                                disabled: !enabled,
                                ..old(self)@.state.accounts[idx]
                            },
                        )
                    })
                },
                Err(reply) => {
                    &&& switch_answer(old(self)@, name@, body_view(body)) == Err::<bool, ReplyView>(
                        reply@,
                    )
                    &&& final(self)@ == old(self)@
                },
            },
    {
        let bytes = match body {
            Some(bytes) => bytes,
            None => return Err(error(400, "body", "Invalid control body")),
        };
        let value = Json::parse(bytes);
        let enabled = match read_enabled(value.as_ref()) {
            Ok(enabled) => enabled,
            Err(reply) => return Err(reply),
        };
        if self.set_enabled(name, enabled) {
            Ok(enabled)
        } else {
            Err(unknown_account())
        }
    }
}

/// What an upstream is asked for.
#[derive(Debug)]
pub struct Asked {
    pub model: String,
    pub group: Option<String>,
    pub session: Option<String>,
    /// The response that the request continues.
    pub previous: Option<String>,
}

/// What an upstream is asked for.
#[verifier::ext_equal]
pub struct AskedView {
    pub model: Seq<char>,
    pub group: Option<Seq<char>>,
    pub session: Option<Seq<char>>,
    pub previous: Option<Seq<char>>,
}

impl View for Asked {
    type V = AskedView;

    open spec fn view(&self) -> AskedView {
        AskedView {
            model: self.model@,
            group: crate::text::option_view(self.group),
            session: crate::text::option_view(self.session),
            previous: crate::text::option_view(self.previous),
        }
    }
}

/// The first of two texts that is there.
pub open spec fn or_text(first: Option<Seq<char>>, second: Option<Seq<char>>) -> Option<Seq<char>> {
    match first {
        Some(text) => Some(text),
        None => second,
    }
}

/// The session that headers name: the first of five names that has a text.
pub open spec fn header_session(headers: Seq<HeaderView>) -> Option<Seq<char>> {
    or_text(
        nonempty(crate::headers::header_text(headers, "session-id"@)),
        or_text(
            nonempty(crate::headers::header_text(headers, "session_id"@)),
            or_text(
                nonempty(crate::headers::header_text(headers, "thread-id"@)),
                or_text(
                    nonempty(crate::headers::header_text(headers, "x-codex-thread-id"@)),
                    nonempty(crate::headers::header_text(headers, "thread_id"@)),
                ),
            ),
        ),
    )
}

/// The model that a request names, or an empty text.
pub open spec fn model_of(value: Option<JsonView>) -> Seq<char> {
    match value {
        Some(inner) => match inner.member_text("model"@) {
            Some(model) => model,
            None => Seq::empty(),
        },
        None => Seq::empty(),
    }
}

/// The response that a request continues.
pub open spec fn previous_of(value: Option<JsonView>) -> Option<Seq<char>> {
    match value {
        Some(inner) => inner.member_text("previous_response_id"@),
        None => None,
    }
}

/// What an upstream is asked for, given the JSON value of the body where there is one. Only a
/// request that posts has one.
pub open spec fn accepted(
    post: bool,
    headers: Seq<HeaderView>,
    value: Option<JsonView>,
) -> Result<AskedView, ReplyView> {
    let source = if post {
        value
    } else {
        None
    };
    if post && !(value matches Some(inner) && inner is Object) {
        Err(crate::reply::plain(400, "json"@, "Request must be a JSON object"@))
    } else if post && model_of(source).len() == 0 {
        Err(crate::reply::plain(400, "model"@, "A model is required"@))
    } else if crate::text::utf8(model_of(source)).len() > 256 {
        Err(crate::reply::plain(400, "model"@, "Model name exceeds 256 bytes"@))
    } else {
        Ok(
            AskedView {
                model: model_of(source),
                group: crate::headers::header_text(headers, "x-tcx-group"@),
                session: or_text(
                    header_session(headers),
                    member_nonempty(source, "prompt_cache_key"@),
                ),
                previous: previous_of(source),
            },
        )
    }
}

fn either<'a>(first: Option<&'a str>, second: Option<&'a str>) -> (text: Option<&'a str>)
    ensures
        crate::json::read(text) == or_text(crate::json::read(first), crate::json::read(second)),
{
    match first {
        Some(text) => Some(text),
        None => second,
    }
}

fn session_in(headers: &Vec<Header>) -> (session: Option<&str>)
    ensures
        crate::json::read(session) == header_session(crate::headers::header_views(headers@)),
{
    either(
        keep_nonempty(text_of(headers, "session-id")),
        either(
            keep_nonempty(text_of(headers, "session_id")),
            either(
                keep_nonempty(text_of(headers, "thread-id")),
                either(
                    keep_nonempty(text_of(headers, "x-codex-thread-id")),
                    keep_nonempty(text_of(headers, "thread_id")),
                ),
            ),
        ),
    )
}

/// What an upstream is asked for, given the JSON value of the body where there is one.
pub fn accept_value(post: bool, headers: &Vec<Header>, value: Option<&Json>) -> (result: Result<
    Asked,
    Reply,
>)
    ensures
        match result {
            Ok(asked) => accepted(
                post,
                crate::headers::header_views(headers@),
                crate::json::seen(value),
            ) == Ok::<AskedView, ReplyView>(asked@),
            Err(reply) => accepted(
                post,
                crate::headers::header_views(headers@),
                crate::json::seen(value),
            ) == Err::<AskedView, ReplyView>(reply@),
        },
{
    let object = match value {
        Some(inner) => inner.is_object(),
        None => false,
    };
    if post && !object {
        return Err(error(400, "json", "Request must be a JSON object"));
    }
    let source: Option<&Json> = if post {
        value
    } else {
        None
    };
    let model: String = match source {
        Some(inner) => match inner.text_at("model") {
            Some(model) => owned(model),
            None => String::new(),
        },
        None => String::new(),
    };
    assert(model@ =~= model_of(crate::json::seen(source)));
    if post && model.as_str().unicode_len() == 0 {
        return Err(error(400, "model", "A model is required"));
    }
    if byte_len(model.as_str()) > 256 {
        return Err(error(400, "model", "Model name exceeds 256 bytes"));
    }
    let session = either(session_in(headers), member_in(source, "prompt_cache_key"));
    let previous: Option<&str> = match source {
        Some(inner) => inner.text_at("previous_response_id"),
        None => None,
    };
    Ok(
        Asked {
            model,
            group: own(text_of(headers, "x-tcx-group")),
            session: own(session),
            previous: own(previous),
        },
    )
}

/// The answer to a request whose body is too long.
pub open spec fn too_large() -> ReplyView {
    crate::reply::plain(413, "body"@, "Request body exceeds 16 MiB"@)
}

/// What an upstream is asked for; `body` is `None` where it was too long or ended early.
pub fn accept(post: bool, headers: &Vec<Header>, body: Option<&[u8]>) -> (result: Result<
    Asked,
    Reply,
>)
    ensures
        match body_view(body) {
            None => result matches Err(reply) && reply@ == too_large(),
            Some(bytes) => match result {
                Ok(asked) => accepted(
                    post,
                    crate::headers::header_views(headers@),
                    crate::json::json_value(bytes),
                ) == Ok::<AskedView, ReplyView>(asked@),
                Err(reply) => accepted(
                    post,
                    crate::headers::header_views(headers@),
                    crate::json::json_value(bytes),
                ) == Err::<AskedView, ReplyView>(reply@),
            },
        },
{
    match body {
        None => Err(error(413, "body", "Request body exceeds 16 MiB")),
        Some(bytes) => {
            let value = Json::parse(bytes);
            accept_value(post, headers, value.as_ref())
        },
    }
}

/// The account that a request is pinned to: the one that produced the response it continues.
pub open spec fn pin_of(pool: PoolView, previous: Option<Seq<char>>, at: u64) -> Result<
    Option<int>,
    ReplyView,
> {
    if pool.state.routing.failed {
        Err(crate::reply::routing_failed())
    } else {
        match previous {
            None => Ok(None),
            Some(id) => match pool.bound(
                crate::affinity::Kind::Response,
                crate::identity::text_digest(id),
                at,
            ) {
                Some(idx) => Ok(Some(idx)),
                None => Err(
                    crate::reply::plain(
                        409,
                        "unknown_previous_response"@,
                        "Previous response is unknown; resend full conversation history"@,
                    ),
                ),
            },
        }
    }
}

impl Pool {
    /// The account that a request is pinned to at a given time.
    pub fn pin(&self, previous: Option<&str>, at: u64) -> (result: Result<Option<usize>, Reply>)
        requires
            self.wf(),
        ensures
            match result {
                Ok(Some(idx)) => idx < self@.state.accounts.len() && pin_of(
                    self@,
                    crate::json::read(previous),
                    at,
                ) == Ok::<Option<int>, ReplyView>(Some(idx as int)),
                Ok(None) => pin_of(self@, crate::json::read(previous), at) == Ok::<
                    Option<int>,
                    ReplyView,
                >(None),
                Err(reply) => pin_of(self@, crate::json::read(previous), at) == Err::<
                    Option<int>,
                    ReplyView,
                >(reply@),
            },
    {
        if !self.routing_healthy() {
            return Err(routing_error());
        }
        match previous {
            None => Ok(None),
            Some(id) => match self.response_account_at(id, at) {
                Some(idx) => Ok(Some(idx)),
                None => Err(
                    error(
                        409,
                        "unknown_previous_response",
                        "Previous response is unknown; resend full conversation history",
                    ),
                ),
            },
        }
    }
}

/// A request without the local token is answered that one is required, whatever it asks for.
pub proof fn token_is_required(
    headers: Seq<HeaderView>,
    expected: Seq<char>,
    method: Method,
    path: Seq<char>,
)
    requires
        !is_authorized(headers, expected),
    ensures
        route_of(headers, expected, method, path) == RouteView::Refused(
            crate::reply::plain(401, "unauthorized"@, "A valid local proxy token is required"@),
        ),
{
}

/// A request of a browser is never taken.
pub proof fn browsers_are_refused(
    headers: Seq<HeaderView>,
    expected: Seq<char>,
    method: Method,
    path: Seq<char>,
)
    requires
        crate::headers::has_header(headers, "origin"@),
    ensures
        route_of(headers, expected, method, path) is Refused,
{
}

/// Only the token that is expected is accepted: what one token opens, another does not.
pub proof fn one_token_is_accepted(headers: Seq<HeaderView>, a: Seq<char>, b: Seq<char>)
    requires
        is_authorized(headers, a),
        is_authorized(headers, b),
    ensures
        a == b,
{
    let head = "Bearer "@;
    assert((head + a).skip(head.len() as int) =~= a);
    assert((head + b).skip(head.len() as int) =~= b);
}

/// A request that is taken names a model where it posts, of no more bytes than a model may have.
pub proof fn taken_request_names_a_model(
    post: bool,
    headers: Seq<HeaderView>,
    value: Option<JsonView>,
)
    requires
        accepted(post, headers, value) is Ok,
    ensures
        post ==> accepted(post, headers, value)->Ok_0.model.len() > 0,
        !post ==> accepted(post, headers, value)->Ok_0.model.len() == 0,
        crate::text::utf8(accepted(post, headers, value)->Ok_0.model).len() <= 256,
{
}

/// An identifier of the request that a client sends for diagnosis is not asked about: it never
/// makes a session, and never stands in for the one that the cache key names.
pub proof fn request_identifiers_make_no_session(
    post: bool,
    headers: Seq<HeaderView>,
    value: Option<JsonView>,
    i: int,
    identifier: HeaderView,
)
    requires
        0 <= i <= headers.len(),
        identifier.name == "x-client-request-id"@,
    ensures
        accepted(post, headers.insert(i, identifier), value) == accepted(post, headers, value),
{
    reveal_strlit("x-client-request-id");
    reveal_strlit("session-id");
    reveal_strlit("session_id");
    reveal_strlit("thread-id");
    reveal_strlit("thread_id");
    reveal_strlit("x-codex-thread-id");
    reveal_strlit("x-tcx-group");
    assert("x-client-request-id"@.len() == 19);
    assert("session-id"@.len() == 10 && "session_id"@.len() == 10);
    assert("thread-id"@.len() == 9 && "thread_id"@.len() == 9);
    assert("x-codex-thread-id"@.len() == 17 && "x-tcx-group"@.len() == 11);
    crate::headers::other_header_is_passed_over(headers, i, identifier, "session-id"@);
    crate::headers::other_header_is_passed_over(headers, i, identifier, "session_id"@);
    crate::headers::other_header_is_passed_over(headers, i, identifier, "thread-id"@);
    crate::headers::other_header_is_passed_over(headers, i, identifier, "thread_id"@);
    crate::headers::other_header_is_passed_over(headers, i, identifier, "x-codex-thread-id"@);
    crate::headers::other_header_is_passed_over(headers, i, identifier, "x-tcx-group"@);
}

/// Whether the first header with a name has a text that is not empty.
pub open spec fn names_session(headers: Seq<HeaderView>, name: Seq<char>, text: Seq<char>) -> bool {
    &&& text.len() > 0
    &&& exists|i: int| #[trigger]
        crate::headers::stands_first(headers, i, name) && headers[i].text == Some(text)
}

/// Whether the headers with a name give no session.
pub open spec fn names_no_session(headers: Seq<HeaderView>, name: Seq<char>) -> bool {
    forall|text: Seq<char>| !#[trigger] names_session(headers, name, text)
}

proof fn lemma_names_session(headers: Seq<HeaderView>, name: Seq<char>)
    ensures
        forall|text: Seq<char>| #[trigger]
            names_session(headers, name, text) <==> nonempty(
                crate::headers::header_text(headers, name),
            ) == Some(text),
        names_no_session(headers, name) <==> nonempty(crate::headers::header_text(headers, name))
            is None,
{
    crate::headers::first_header_is_read(headers, name);
    assert forall|text: Seq<char>| #[trigger]
        names_session(headers, name, text) <==> nonempty(
            crate::headers::header_text(headers, name),
        ) == Some(text) by {
        if nonempty(crate::headers::header_text(headers, name)) == Some(text) {
            let i = choose|i: int| #[trigger] crate::headers::stands_first(headers, i, name);
            assert(crate::headers::has_header(headers, name)) by {
                crate::headers::header_is_found(headers, name);
            }
            assert(crate::headers::stands_first(headers, i, name));
        }
    }
    if names_no_session(headers, name) {
        if nonempty(crate::headers::header_text(headers, name)) is Some {
            let text = crate::headers::header_text(headers, name)->Some_0;
            assert(names_session(headers, name, text));
        }
    }
}

/// The session of an accepted request is the text of the first header that names one, asked for in
/// this order: `session-id`, `session_id`, `thread-id`, `x-codex-thread-id`, `thread_id`; where no
/// header names one, it is the `prompt_cache_key` of the body.
pub proof fn session_is_what_the_request_names(
    post: bool,
    headers: Seq<HeaderView>,
    value: Option<JsonView>,
    text: Seq<char>,
)
    requires
        accepted(post, headers, value) is Ok,
    ensures
        ({
            let session = accepted(post, headers, value)->Ok_0.session;
            let first = names_no_session(headers, "session-id"@);
            let second = first && names_no_session(headers, "session_id"@);
            let third = second && names_no_session(headers, "thread-id"@);
            let fourth = third && names_no_session(headers, "x-codex-thread-id"@);
            let fifth = fourth && names_no_session(headers, "thread_id"@);
            &&& names_session(headers, "session-id"@, text) ==> session == Some(text)
            &&& first && names_session(headers, "session_id"@, text) ==> session == Some(text)
            &&& second && names_session(headers, "thread-id"@, text) ==> session == Some(text)
            &&& third && names_session(headers, "x-codex-thread-id"@, text) ==> session == Some(
                text,
            )
            &&& fourth && names_session(headers, "thread_id"@, text) ==> session == Some(text)
            &&& fifth && post ==> (session == Some(text) <==> text.len() > 0 && value is Some
                && value->Some_0.member_text("prompt_cache_key"@) == Some(text))
            &&& fifth && !post ==> session is None
        }),
{
    lemma_names_session(headers, "session-id"@);
    lemma_names_session(headers, "session_id"@);
    lemma_names_session(headers, "thread-id"@);
    lemma_names_session(headers, "x-codex-thread-id"@);
    lemma_names_session(headers, "thread_id"@);
}

/// A request is accepted exactly where it carries no body to look at, or a JSON object with a model
/// of 1 to 256 bytes; the model, the group and the response it continues are what it names.
pub proof fn request_is_accepted_with_its_model(
    post: bool,
    headers: Seq<HeaderView>,
    value: Option<JsonView>,
)
    ensures
        accepted(post, headers, value) is Ok <==> (!post || (value is Some && value->Some_0 is Object
            && value->Some_0.member_text("model"@) is Some && 0 < crate::text::utf8(
            value->Some_0.member_text("model"@)->Some_0,
        ).len() <= 256)),
        accepted(post, headers, value) matches Ok(asked) ==> {
            &&& asked.group == crate::headers::header_text(headers, "x-tcx-group"@)
            &&& post ==> asked.model == value->Some_0.member_text("model"@)->Some_0
            &&& post ==> asked.previous == value->Some_0.member_text("previous_response_id"@)
            &&& !post ==> asked.model.len() == 0 && asked.previous is None
        },
        accepted(post, headers, value) matches Err(reply) ==> {
            &&& reply.status == 400
            &&& reply.code == "json"@ <==> !(value is Some && value->Some_0 is Object)
            &&& reply.code == "json"@ || reply.code == "model"@
            &&& reply.kind == reply.code
            &&& reply.resets_at is None && reply.retry_after is None
        },
{
    reveal_strlit("json");
    reveal_strlit("model");
    assert("json"@.len() != "model"@.len());
    if value is Some {
        if value->Some_0.member_text("model"@) is Some {
            crate::text::lemma_utf8_empty(value->Some_0.member_text("model"@)->Some_0);
        }
    }
    crate::text::lemma_utf8_empty(Seq::empty());
}

proof fn lemma_between(path: Seq<char>, prefix: Seq<char>, suffix: Seq<char>, name: Seq<char>)
    ensures
        between(path, prefix, suffix) == Some(name) <==> path == prefix + name + suffix,
{
    if path == prefix + name + suffix {
        assert(prefix.is_prefix_of(path)) by {
            assert(path.subrange(0, prefix.len() as int) =~= prefix);
        }
        assert(path.skip(prefix.len() as int) =~= name + suffix);
        assert(suffix.is_suffix_of(name + suffix)) by {
            assert((name + suffix).subrange(name.len() as int, (name + suffix).len() as int)
                =~= suffix);
        }
        assert(path.subrange(prefix.len() as int, path.len() - suffix.len()) =~= name);
    }
    if between(path, prefix, suffix) == Some(name) {
        let rest = path.skip(prefix.len() as int);
        assert(path =~= prefix + rest);
        assert(rest =~= name + suffix);
        assert(path =~= prefix + name + suffix);
    }
}

/// Whether a path names an endpoint, bare or under one of the two roots that clients use.
pub open spec fn leads_to(path: Seq<char>, endpoint: Seq<char>) -> bool {
    ||| path == endpoint
    ||| path == "/v1"@ + endpoint
    ||| path == "/backend-api/codex"@ + endpoint
}

/// Whether a request carries the token and does not come from a browser.
pub open spec fn is_admitted(headers: Seq<HeaderView>, expected: Seq<char>) -> bool {
    &&& crate::headers::header_text(headers, "authorization"@) == Some("Bearer "@ + expected)
    &&& forall|i: int| 0 <= i < headers.len() ==> (#[trigger] headers[i]).name != "origin"@
}

proof fn lemma_endpoint(path: Seq<char>, endpoint: Seq<char>)
    requires
        endpoint == "/responses"@ || endpoint == "/responses/compact"@ || endpoint == "/models"@,
    ensures
        endpoint_of(path) == endpoint <==> leads_to(path, endpoint),
{
    reveal_strlit("/v1");
    reveal_strlit("/backend-api/codex");
    reveal_strlit("/responses");
    reveal_strlit("/responses/compact");
    reveal_strlit("/models");
    let v = "/v1"@;
    let c = "/backend-api/codex"@;
    if endpoint_of(path) == endpoint {
        if v.is_prefix_of(path) {
            assert(path =~= v + path.skip(v.len() as int));
        } else if c.is_prefix_of(path) {
            assert(path =~= c + path.skip(c.len() as int));
        }
    }
    if leads_to(path, endpoint) {
        if path == endpoint {
            assert(path[1] != v[1]);
            assert(path[1] != c[1]);
            assert(!v.is_prefix_of(path)) by {
                if v.is_prefix_of(path) {
                    assert(path.subrange(0, v.len() as int)[1] == v[1]);
                }
            }
            assert(!c.is_prefix_of(path)) by {
                if c.is_prefix_of(path) {
                    assert(path.subrange(0, c.len() as int)[1] == c[1]);
                }
            }
        } else if path == v + endpoint {
            assert(path.subrange(0, v.len() as int) =~= v);
            assert(path.skip(v.len() as int) =~= endpoint);
        } else {
            assert(path.subrange(0, c.len() as int) =~= c);
            assert(path.skip(c.len() as int) =~= endpoint);
            assert(path[1] == c[1]);
            assert(!v.is_prefix_of(path)) by {
                if v.is_prefix_of(path) {
                    assert(path.subrange(0, v.len() as int)[1] == v[1]);
                }
            }
        }
    }
}

proof fn lemma_account_path(path: Seq<char>, name: Seq<char>, suffix: Seq<char>)
    requires
        path == "/accounts/"@ + name + suffix,
        suffix == "/enabled"@ || suffix == "/reset-credits"@ || suffix == "/reset"@,
    ensures
        path != "/health"@,
        path != "/status"@,
        path != "/reload"@,
        !leads_to(path, "/responses"@),
        !leads_to(path, "/responses/compact"@),
        !leads_to(path, "/models"@),
        suffix != "/enabled"@ ==> between(path, "/accounts/"@, "/enabled"@) is None,
        suffix != "/reset-credits"@ ==> between(path, "/accounts/"@, "/reset-credits"@) is None,
        suffix != "/reset"@ ==> between(path, "/accounts/"@, "/reset"@) is None,
{
    reveal_strlit("/accounts/");
    reveal_strlit("/enabled");
    reveal_strlit("/reset-credits");
    reveal_strlit("/reset");
    reveal_strlit("/health");
    reveal_strlit("/status");
    reveal_strlit("/reload");
    reveal_strlit("/responses");
    reveal_strlit("/responses/compact");
    reveal_strlit("/models");
    reveal_strlit("/v1");
    reveal_strlit("/backend-api/codex");
    assert(path[1] == 'a');
    assert(path[path.len() - 1] == suffix[suffix.len() - 1]);
    let last = path[path.len() - 1];
    assert forall|other: Seq<char>|
        other.len() > 0 && other.last() != last implies #[trigger] between(
        path,
        "/accounts/"@,
        other,
    ) is None by {
        if between(path, "/accounts/"@, other) is Some {
            let inner = between(path, "/accounts/"@, other)->Some_0;
            lemma_between(path, "/accounts/"@, other, inner);
            assert(path.last() == other.last());
        }
    }
    assert("/enabled"@.last() == 'd');
    assert("/reset-credits"@.last() == 's');
    assert("/reset"@.last() == 't');
}

/// An admitted request is served by its method and path alone: the three fixed paths, the three
/// paths of an account, and the three endpoints of the upstream, which take no encoded body.
pub proof fn routes_are_told_by_method_and_path(
    headers: Seq<HeaderView>,
    expected: Seq<char>,
    method: Method,
    path: Seq<char>,
    name: Seq<char>,
)
    ensures
        ({
            let route = route_of(headers, expected, method, path);
            let admitted = is_admitted(headers, expected);
            let plain = crate::headers::header_text(headers, "content-encoding"@) == Some(
                "identity"@,
            ) || forall|i: int|
                0 <= i < headers.len() ==> (#[trigger] headers[i]).name != "content-encoding"@;
            &&& !admitted ==> route is Refused
            &&& route is Health <==> admitted && method == Method::Get && path == "/health"@
            &&& route is Status <==> admitted && method == Method::Get && path == "/status"@
            &&& route is Reload <==> admitted && method == Method::Post && path == "/reload"@
            &&& route == RouteView::Enabled(name) <==> admitted && method == Method::Post && path
                == "/accounts/"@ + name + "/enabled"@
            &&& route == RouteView::Credits(name) <==> admitted && method == Method::Get && path
                == "/accounts/"@ + name + "/reset-credits"@
            &&& route == RouteView::Reset(name) <==> admitted && method == Method::Post && path
                == "/accounts/"@ + name + "/reset"@
            &&& route == RouteView::Inference(name) <==> admitted && plain && leads_to(path, name)
                && (method == Method::Post && (name == "/responses"@ || name
                == "/responses/compact"@) || method == Method::Get && name == "/models"@)
        }),
{
    lemma_between(path, "/accounts/"@, "/enabled"@, name);
    lemma_between(path, "/accounts/"@, "/reset-credits"@, name);
    lemma_between(path, "/accounts/"@, "/reset"@, name);
    lemma_endpoint(path, "/responses"@);
    lemma_endpoint(path, "/responses/compact"@);
    lemma_endpoint(path, "/models"@);
    assert forall|suffix: Seq<char>|
        (suffix == "/enabled"@ || suffix == "/reset-credits"@ || suffix == "/reset"@)
            && #[trigger] between(path, "/accounts/"@, suffix) is Some implies path
        == "/accounts/"@ + between(path, "/accounts/"@, suffix)->Some_0 + suffix by {
        lemma_between(
            path,
            "/accounts/"@,
            suffix,
            between(path, "/accounts/"@, suffix)->Some_0,
        );
    }
    if between(path, "/accounts/"@, "/enabled"@) is Some {
        lemma_account_path(path, between(path, "/accounts/"@, "/enabled"@)->Some_0, "/enabled"@);
    }
    if between(path, "/accounts/"@, "/reset-credits"@) is Some {
        lemma_account_path(
            path,
            between(path, "/accounts/"@, "/reset-credits"@)->Some_0,
            "/reset-credits"@,
        );
    }
    if between(path, "/accounts/"@, "/reset"@) is Some {
        lemma_account_path(path, between(path, "/accounts/"@, "/reset"@)->Some_0, "/reset"@);
    }
    reveal_strlit("/health");
    reveal_strlit("/status");
    reveal_strlit("/reload");
    reveal_strlit("/responses");
    reveal_strlit("/responses/compact");
    reveal_strlit("/models");
    reveal_strlit("/v1");
    reveal_strlit("/backend-api/codex");
    reveal_strlit("/enabled");
    reveal_strlit("/reset-credits");
    reveal_strlit("/reset");
    assert("/health"@[1] == 'h');
    assert("/status"@[1] == 's');
    assert("/reload"@[3] == 'l');
    assert("/responses"@[3] == 's');
    assert(!leads_to("/health"@, "/models"@));
    assert("/enabled"@.len() == 8 && "/reset-credits"@.len() == 14 && "/reset"@.len() == 6);
}

/// What is refused on the way in: no token with 401, a browser with 403, a wrong method on the path
/// of an account with 405, an unknown path with 404, and an encoded body with 415.
pub proof fn refusals_tell_what_is_wrong(
    headers: Seq<HeaderView>,
    expected: Seq<char>,
    method: Method,
    path: Seq<char>,
)
    requires
        route_of(headers, expected, method, path) is Refused,
    ensures
        route_of(headers, expected, method, path) matches RouteView::Refused(reply) && {
            let token = crate::headers::header_text(headers, "authorization"@) == Some(
                "Bearer "@ + expected,
            );
            let account = (exists|name: Seq<char>|
                path == #[trigger] ("/accounts/"@ + name + "/enabled"@)) || (exists|
                name: Seq<char>,
            |
                path == #[trigger] ("/accounts/"@ + name + "/reset-credits"@)) || (exists|
                name: Seq<char>,
            |
                path == #[trigger] ("/accounts/"@ + name + "/reset"@));
            let served = method == Method::Post && (leads_to(path, "/responses"@) || leads_to(
                path,
                "/responses/compact"@,
            )) || method == Method::Get && leads_to(path, "/models"@);
            let admitted = is_admitted(headers, expected);
            &&& reply.status == 401 <==> !token
            &&& reply.status == 403 <==> token && !admitted
            &&& reply.status == 405 <==> admitted && account
            &&& reply.status == 404 <==> admitted && !account && !served
            &&& reply.status == 415 <==> admitted && !account && served
        },
{
    lemma_endpoint(path, "/responses"@);
    lemma_endpoint(path, "/responses/compact"@);
    lemma_endpoint(path, "/models"@);
    assert forall|suffix: Seq<char>, name: Seq<char>| #[trigger]
        between(path, "/accounts/"@, suffix) == Some(name) <==> path == #[trigger] ("/accounts/"@
            + name + suffix) by {
        lemma_between(path, "/accounts/"@, suffix, name);
    }
    if between(path, "/accounts/"@, "/enabled"@) is Some {
        let name = between(path, "/accounts/"@, "/enabled"@)->Some_0;
        assert(path == "/accounts/"@ + name + "/enabled"@);
    }
    if between(path, "/accounts/"@, "/reset-credits"@) is Some {
        let name = between(path, "/accounts/"@, "/reset-credits"@)->Some_0;
        assert(path == "/accounts/"@ + name + "/reset-credits"@);
    }
    if between(path, "/accounts/"@, "/reset"@) is Some {
        let name = between(path, "/accounts/"@, "/reset"@)->Some_0;
        assert(path == "/accounts/"@ + name + "/reset"@);
    }
}

/// An account is switched exactly where the body is JSON with a boolean `enabled` and the account is
/// there; it is then switched to that boolean.
pub proof fn account_is_switched_as_asked(
    pool: PoolView,
    name: Seq<char>,
    body: Option<Seq<u8>>,
    enabled: bool,
)
    ensures
        switch_answer(pool, name, body) == Ok::<bool, ReplyView>(enabled) <==> body is Some
            && crate::json::json_value(body->Some_0) is Some && crate::json::json_value(
            body->Some_0,
        )->Some_0.member_boolean("enabled"@) == Some(enabled) && exists|i: int|
            0 <= i < pool.state.accounts.len() && (#[trigger] pool.state.accounts[i]).name == name,
        switch_answer(pool, name, body) matches Err(reply) ==> {
            &&& reply.status == 404 || reply.status == 400
            &&& reply.status == 404 ==> forall|i: int|
                0 <= i < pool.state.accounts.len() ==> (#[trigger] pool.state.accounts[i]).name
                    != name
        },
{
    crate::pool::account_is_found_by_name(pool.state.accounts, name);
}

/// A request that continues a response goes where that response is bound, and is refused with 409
/// where it is bound nowhere; any other request may go anywhere.
pub proof fn continued_response_pins_its_account(
    pool: PoolView,
    previous: Option<Seq<char>>,
    at: u64,
    id: Seq<char>,
    idx: int,
)
    requires
        !pool.state.routing.failed,
    ensures
        previous is None ==> pin_of(pool, previous, at) == Ok::<Option<int>, ReplyView>(None),
        pool.bound(crate::affinity::Kind::Response, crate::identity::text_digest(id), at) == Some(
            idx,
        ) ==> pin_of(pool, Some(id), at) == Ok::<Option<int>, ReplyView>(Some(idx)),
        pool.bound(crate::affinity::Kind::Response, crate::identity::text_digest(id), at) is None
            ==> (pin_of(pool, Some(id), at) matches Err(reply) && reply.status == 409 && reply.code
            == "unknown_previous_response"@),
{
}

/// Where routes could not be saved nothing is sent: every request is refused with 503.
pub proof fn failed_routing_refuses_all(pool: PoolView, previous: Option<Seq<char>>, at: u64)
    requires
        pool.state.routing.failed,
    ensures
        pin_of(pool, previous, at) matches Err(reply) && reply.status == 503 && reply.code
            == "routing_storage_unavailable"@,
{
}

/// How each refusal on the way in is worded.
pub proof fn refusals_are_worded(
    headers: Seq<HeaderView>,
    expected: Seq<char>,
    method: Method,
    path: Seq<char>,
    name: Seq<char>,
)
    requires
        route_of(headers, expected, method, path) is Refused,
    ensures
        route_of(headers, expected, method, path) matches RouteView::Refused(reply) && {
            &&& reply.kind == reply.code
            &&& reply.status == 401 ==> reply.code == "unauthorized"@ && reply.message
                == "A valid local proxy token is required"@
            &&& reply.status == 403 ==> reply.code == "browser_request"@ && reply.message
                == "Browser requests are not supported"@
            &&& reply.status == 404 ==> reply.code == "route"@ && reply.message
                == "Unsupported endpoint or method"@
            &&& reply.status == 405 ==> reply.code == "method"@
            &&& reply.status == 405 && (path == "/accounts/"@ + name + "/enabled"@ || path
                == "/accounts/"@ + name + "/reset"@) ==> reply.message == "Use POST"@
            &&& reply.status == 405 && path == "/accounts/"@ + name + "/reset-credits"@
                ==> reply.message == "Use GET"@
            &&& reply.status == 415 ==> reply.code == "encoding"@ && reply.message
                == "Send an uncompressed JSON request"@
        },
{
    lemma_between(path, "/accounts/"@, "/enabled"@, name);
    lemma_between(path, "/accounts/"@, "/reset-credits"@, name);
    lemma_between(path, "/accounts/"@, "/reset"@, name);
    reveal_strlit("/enabled");
    reveal_strlit("/reset-credits");
    reveal_strlit("/reset");
    assert("/enabled"@.len() == 8 && "/reset-credits"@.len() == 14 && "/reset"@.len() == 6);
    if path == "/accounts/"@ + name + "/enabled"@ {
        lemma_account_path(path, name, "/enabled"@);
    } else if path == "/accounts/"@ + name + "/reset-credits"@ {
        lemma_account_path(path, name, "/reset-credits"@);
    } else if path == "/accounts/"@ + name + "/reset"@ {
        lemma_account_path(path, name, "/reset"@);
    }
}

/// How a request that cannot be served as it stands is refused.
pub proof fn bad_requests_are_worded(
    pool: PoolView,
    name: Seq<char>,
    body: Option<Seq<u8>>,
    post: bool,
    headers: Seq<HeaderView>,
    value: Option<JsonView>,
)
    ensures
        body is None ==> (switch_answer(pool, name, body) matches Err(reply) && reply.status == 400
            && reply.code == "body"@ && reply.message == "Invalid control body"@),
        switch_answer(pool, name, body) matches Err(reply) ==> {
            &&& reply.status == 404 ==> reply.code == "account"@ && reply.message
                == "Unknown account"@
            &&& reply.status == 400 ==> reply.code == "body"@
            &&& reply.status == 400 && body is Some ==> reply.message == "Expected enabled boolean"@
        },
        too_large().status == 413 && too_large().code == "body"@ && too_large().message
            == "Request body exceeds 16 MiB"@,
        no_account().status == 404 && no_account().code == "account"@,
        accepted(post, headers, value) matches Err(reply) ==> {
            let model = value is Some && value->Some_0 is Object;
            &&& !model ==> reply.message == "Request must be a JSON object"@
            &&& model && value->Some_0.member_text("model"@) is None ==> reply.message
                == "A model is required"@
            &&& model && value->Some_0.member_text("model"@) is Some
                && value->Some_0.member_text("model"@)->Some_0.len() > 0 ==> reply.message
                == "Model name exceeds 256 bytes"@
        },
{
}

} // verus!
