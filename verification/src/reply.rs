//! What the proxy itself answers, where it does not hand an upstream answer on.
use crate::json::quoted;
use crate::text::concat;
use crate::text::concat3;
use crate::text::decimal;
use crate::text::owned;
use crate::text::same;
use vstd::prelude::*;

verus! {

/// An answer of the proxy itself: an error with a type, a code and a message.
#[derive(Debug)]
pub struct Reply {
    pub status: u16,
    pub kind: String,
    pub code: String,
    pub message: String,
    /// When a usage limit resets.
    pub resets_at: Option<u64>,
    /// After how many seconds to ask again.
    pub retry_after: Option<u64>,
}

/// What an answer holds.
#[verifier::ext_equal]
pub struct ReplyView {
    pub status: u16,
    pub kind: Seq<char>,
    pub code: Seq<char>,
    pub message: Seq<char>,
    pub resets_at: Option<u64>,
    pub retry_after: Option<u64>,
}

impl View for Reply {
    type V = ReplyView;

    open spec fn view(&self) -> ReplyView {
        ReplyView {
            status: self.status,
            kind: self.kind@,
            code: self.code@,
            message: self.message@,
            resets_at: self.resets_at,
            retry_after: self.retry_after,
        }
    }
}

/// An error whose type is its code.
pub open spec fn plain(status: u16, code: Seq<char>, message: Seq<char>) -> ReplyView {
    ReplyView { status, kind: code, code, message, resets_at: None, retry_after: None }
}

/// An error whose type is its code.
pub fn error(status: u16, code: &str, message: &str) -> (reply: Reply)
    ensures
        reply@ == plain(status, code@, message@),
{
    Reply {
        status,
        kind: owned(code),
        code: owned(code),
        message: owned(message),
        resets_at: None,
        retry_after: None,
    }
}

/// The answer where no account is eligible. Codex reads the type as a final usage limit and reports
/// when it resets.
pub open spec fn exhausted(resets_at: Option<u64>) -> ReplyView {
    ReplyView {
        status: 429,
        kind: "usage_limit_reached"@,
        code: "pool_exhausted"@,
        message: "No account is eligible; wait for quota reset or enable an account"@,
        resets_at,
        retry_after: None,
    }
}

/// The answer where no account is eligible.
pub fn pool_exhausted(resets_at: Option<u64>) -> (reply: Reply)
    ensures
        reply@ == exhausted(resets_at),
{
    Reply {
        status: 429,
        kind: owned("usage_limit_reached"),
        code: owned("pool_exhausted"),
        message: owned("No account is eligible; wait for quota reset or enable an account"),
        resets_at,
        retry_after: None,
    }
}

/// The answer where no account has a token.
pub open spec fn no_credentials() -> ReplyView {
    plain(503, "credentials_unavailable"@, "No eligible account has working credentials"@)
}

/// The answer where an account waits out a failure. It names the failure, and never a reset that
/// the upstream did not send.
pub open spec fn on_hold(reason: Seq<char>) -> ReplyView {
    if reason == "rate_limited"@ {
        plain(
            429,
            "rate_limited"@,
            "Every eligible account is rate limited; retry after the hold"@,
        )
    } else if reason == "credential_unavailable"@ || reason == "credential_refresh_failed"@ || reason
        == "authentication_failed"@ {
        no_credentials()
    } else {
        plain(
            503,
            "upstream_unavailable"@,
            "An eligible account is waiting out an upstream failure"@,
        )
    }
}

/// The answer where an account waits out a failure.
pub fn held(reason: &str) -> (reply: Reply)
    ensures
        reply@ == on_hold(reason@),
{
    if same(reason, "rate_limited") {
        error(429, "rate_limited", "Every eligible account is rate limited; retry after the hold")
    } else if same(reason, "credential_unavailable") || same(reason, "credential_refresh_failed")
        || same(reason, "authentication_failed") {
        error(503, "credentials_unavailable", "No eligible account has working credentials")
    } else {
        error(503, "upstream_unavailable", "An eligible account is waiting out an upstream failure")
    }
}

/// The answer where the routing could not be stored.
pub open spec fn routing_failed() -> ReplyView {
    plain(
        503,
        "routing_storage_unavailable"@,
        "Routing state could not be saved; repair storage before restarting the proxy"@,
    )
}

/// The answer where the routing could not be stored.
pub fn routing_error() -> (reply: Reply)
    ensures
        reply@ == routing_failed(),
{
    error(
        503,
        "routing_storage_unavailable",
        "Routing state could not be saved; repair storage before restarting the proxy",
    )
}

/// The answer where the body of an upstream answer could not be read.
pub open spec fn unread() -> ReplyView {
    plain(502, "response_read_failed"@, "Upstream response exceeded limits or ended early"@)
}

/// The answer where the body of an upstream answer could not be read.
pub fn read_failed() -> (reply: Reply)
    ensures
        reply@ == unread(),
{
    error(502, "response_read_failed", "Upstream response exceeded limits or ended early")
}

/// How a request failed that may have reached the upstream.
#[derive(Clone, Copy, Debug, PartialEq, Eq, Structural)]
pub enum Failure {
    /// The client gave up waiting.
    Timeout,
    /// The request could not be built.
    Invalid,
    /// The body could not be sent.
    Body,
    /// Anything else on the way.
    Transport,
    /// The URL could not be built.
    Url,
    /// The account cannot stand in a header.
    Account,
    /// No headers came in time.
    Headers,
}

/// The fixed name of a failure. Nothing of the failure itself is told: it could hold a URL, a
/// credential or a part of the request.
pub open spec fn reason_of(failure: Failure) -> Seq<char> {
    match failure {
        Failure::Timeout => "upstream_request_timeout"@,
        Failure::Invalid => "upstream_request_invalid"@,
        Failure::Body => "upstream_request_body_error"@,
        Failure::Transport => "upstream_transport_error"@,
        Failure::Url => "upstream_url_invalid"@,
        Failure::Account => "upstream_account_header_invalid"@,
        Failure::Headers => "upstream_response_header_timeout"@,
    }
}

impl Failure {
    /// The fixed name of the failure.
    pub fn reason(self) -> (text: &'static str)
        ensures
            text@ == reason_of(self),
    {
        match self {
            Failure::Timeout => "upstream_request_timeout",
            Failure::Invalid => "upstream_request_invalid",
            Failure::Body => "upstream_request_body_error",
            Failure::Transport => "upstream_transport_error",
            Failure::Url => "upstream_url_invalid",
            Failure::Account => "upstream_account_header_invalid",
            Failure::Headers => "upstream_response_header_timeout",
        }
    }
}

/// What kind of failure a client reports; `None` where it could not connect, so nothing was sent.
pub fn classify_send_error(connect: bool, timeout: bool, builder: bool, body: bool) -> (failure:
    Option<Failure>)
    ensures
        failure == if connect {
            None
        } else if timeout {
            Some(Failure::Timeout)
        } else if builder {
            Some(Failure::Invalid)
        } else if body {
            Some(Failure::Body)
        } else {
            Some(Failure::Transport)
        },
{
    if connect {
        None
    } else if timeout {
        Some(Failure::Timeout)
    } else if builder {
        Some(Failure::Invalid)
    } else if body {
        Some(Failure::Body)
    } else {
        Some(Failure::Transport)
    }
}

/// What is told of a request whose outcome is unknown.
pub open spec fn failure_text(
    failure: Failure,
    io_kind: Option<Seq<char>>,
    elapsed_ms: u64,
    timeout: u64,
) -> Seq<char> {
    "Upstream request failed before response headers: "@ + reason_of(failure) + "; I/O: "@ + (
    match io_kind {
        Some(kind) => kind,
        None => "unavailable"@,
    }) + ". Elapsed: "@ + crate::text::decimal_text(elapsed_ms as nat) + " ms; timeout: "@
        + crate::text::decimal_text(timeout as nat)
        + " s. Upstream outcome is unknown; request was not replayed"@
}

/// The answer where the outcome of a request is unknown.
pub fn send_failure(
    failure: Failure,
    io_kind: Option<&str>,
    elapsed_ms: u64,
    timeout: u64,
) -> (reply: Reply)
    ensures
        reply@ == plain(
            502,
            "upstream_outcome_unknown"@,
            failure_text(failure, crate::json::read(io_kind), elapsed_ms, timeout),
        ),
{
    let kind = match io_kind {
        Some(kind) => kind,
        None => "unavailable",
    };
    let start = concat3(
        "Upstream request failed before response headers: ",
        failure.reason(),
        "; I/O: ",
    );
    let cause = concat3(start.as_str(), kind, ". Elapsed: ");
    let timing = concat3(cause.as_str(), decimal(elapsed_ms).as_str(), " ms; timeout: ");
    let message = concat3(
        timing.as_str(),
        decimal(timeout).as_str(),
        " s. Upstream outcome is unknown; request was not replayed",
    );
    error(502, "upstream_outcome_unknown", message.as_str())
}

/// The JSON text of an answer.
pub open spec fn body_text(reply: ReplyView) -> Seq<char> {
    "{\"error\":{\"code\":"@ + crate::json::json_string(reply.code) + ",\"message\":"@
        + crate::json::json_string(reply.message) + (match reply.resets_at {
        Some(at) => ",\"resets_at\":"@ + crate::text::decimal_text(at as nat),
        None => ""@,
    }) + ",\"type\":"@ + crate::json::json_string(reply.kind) + "}}"@
}

impl Reply {
    /// The JSON text of the answer.
    pub fn body(&self) -> (text: String)
        ensures
            text@ == body_text(self@),
    {
        let code = concat3(
            "{\"error\":{\"code\":",
            quoted(self.code.as_str()).as_str(),
            ",\"message\":",
        );
        let resets = match self.resets_at {
            Some(at) => concat(",\"resets_at\":", decimal(at).as_str()),
            None => owned(""),
        };
        let message = concat3(
            code.as_str(),
            quoted(self.message.as_str()).as_str(),
            resets.as_str(),
        );
        let kind = concat3(message.as_str(), ",\"type\":", quoted(self.kind.as_str()).as_str());
        concat(kind.as_str(), "}}")
    }
}

/// What stopped a request before an answer came is told by a name of its own.
pub proof fn failures_are_told_apart(a: Failure, b: Failure)
    requires
        reason_of(a) == reason_of(b),
    ensures
        a == b,
{
    reveal_strlit("upstream_request_timeout");
    reveal_strlit("upstream_request_invalid");
    reveal_strlit("upstream_request_body_error");
    reveal_strlit("upstream_transport_error");
    reveal_strlit("upstream_url_invalid");
    reveal_strlit("upstream_account_header_invalid");
    reveal_strlit("upstream_response_header_timeout");
    assert("upstream_request_timeout"@.len() == 24 && "upstream_request_invalid"@.len() == 24);
    assert("upstream_transport_error"@.len() == 24 && "upstream_request_body_error"@.len() == 27);
    assert("upstream_url_invalid"@.len() == 20 && "upstream_account_header_invalid"@.len() == 31);
    assert("upstream_response_header_timeout"@.len() == 32);
    assert("upstream_request_timeout"@[17] != "upstream_request_invalid"@[17]);
    assert("upstream_transport_error"@[9] != "upstream_request_timeout"@[9]);
    assert("upstream_transport_error"@[9] != "upstream_request_invalid"@[9]);
}

/// What each failure is called, and the answers that stand for no account.
pub proof fn failures_are_named(failure: Failure, resets_at: Option<u64>)
    ensures
        failure is Timeout ==> reason_of(failure) == "upstream_request_timeout"@,
        failure is Invalid ==> reason_of(failure) == "upstream_request_invalid"@,
        failure is Body ==> reason_of(failure) == "upstream_request_body_error"@,
        failure is Transport ==> reason_of(failure) == "upstream_transport_error"@,
        failure is Url ==> reason_of(failure) == "upstream_url_invalid"@,
        failure is Account ==> reason_of(failure) == "upstream_account_header_invalid"@,
        failure is Headers ==> reason_of(failure) == "upstream_response_header_timeout"@,
        exhausted(resets_at).resets_at == resets_at,
        exhausted(resets_at).status == 429,
        unread().status == 502,
        routing_failed().status == 503,
        no_credentials().status == 503,
{
}

/// How the answers are worded that the proxy gives itself.
pub proof fn answers_are_worded(
    status: u16,
    code: Seq<char>,
    message: Seq<char>,
    resets_at: Option<u64>,
)
    ensures
        ({
            let reply = plain(status, code, message);
            &&& reply.status == status && reply.code == code && reply.kind == code
            &&& reply.message == message && reply.resets_at is None && reply.retry_after is None
        }),
        ({
            let reply = exhausted(resets_at);
            &&& reply.kind == "usage_limit_reached"@ && reply.code == "pool_exhausted"@
            &&& reply.message
                == "No account is eligible; wait for quota reset or enable an account"@
            &&& reply.retry_after is None
        }),
        no_credentials().code == "credentials_unavailable"@,
        no_credentials().message == "No eligible account has working credentials"@,
        routing_failed().code == "routing_storage_unavailable"@,
        routing_failed().message
            == "Routing state could not be saved; repair storage before restarting the proxy"@,
        unread().code == "response_read_failed"@,
        unread().message == "Upstream response exceeded limits or ended early"@,
{
}

/// How a hold is told, by its reason.
pub proof fn holds_are_worded(reason: Seq<char>)
    ensures
        ({
            let reply = on_hold(reason);
            let credentials = reason == "credential_unavailable"@ || reason
                == "credential_refresh_failed"@ || reason == "authentication_failed"@;
            &&& reason == "rate_limited"@ ==> reply.status == 429 && reply.code == "rate_limited"@
                && reply.message == "Every eligible account is rate limited; retry after the hold"@
            &&& reason != "rate_limited"@ && credentials ==> reply == no_credentials()
            &&& reason != "rate_limited"@ && !credentials ==> reply.status == 503 && reply.code
                == "upstream_unavailable"@ && reply.message
                == "An eligible account is waiting out an upstream failure"@
        }),
{
}

/// A failed request tells why, what the system said, how long it took and how long it could have.
pub proof fn failed_requests_are_told(
    failure: Failure,
    io_kind: Option<Seq<char>>,
    elapsed_ms: u64,
    timeout: u64,
)
    ensures
        failure_text(failure, io_kind, elapsed_ms, timeout)
            == "Upstream request failed before response headers: "@ + reason_of(failure)
            + "; I/O: "@ + (if io_kind is Some {
            io_kind->Some_0
        } else {
            "unavailable"@
        }) + ". Elapsed: "@ + crate::text::decimal_text(elapsed_ms as nat) + " ms; timeout: "@
            + crate::text::decimal_text(timeout as nat)
            + " s. Upstream outcome is unknown; request was not replayed"@,
{
}

/// The body of an answer is a JSON object with an `error`: its code, its message, when a limit resets
/// where that is known, and its type.
pub proof fn bodies_hold_the_error(reply: ReplyView)
    ensures
        ({
            let code = crate::json::json_string(reply.code);
            let message = crate::json::json_string(reply.message);
            let kind = crate::json::json_string(reply.kind);
            &&& reply.resets_at is None ==> body_text(reply) == "{\"error\":{\"code\":"@ + code
                + ",\"message\":"@ + message + ",\"type\":"@ + kind + "}}"@
            &&& reply.resets_at is Some ==> body_text(reply) == "{\"error\":{\"code\":"@ + code
                + ",\"message\":"@ + message + (",\"resets_at\":"@ + crate::text::decimal_text(
                reply.resets_at->Some_0 as nat,
            )) + ",\"type\":"@ + kind + "}}"@
        }),
{
    reveal_strlit("");
    let code = crate::json::json_string(reply.code);
    let message = crate::json::json_string(reply.message);
    let front = "{\"error\":{\"code\":"@ + code + ",\"message\":"@ + message;
    assert(front + ""@ =~= front);
}

} // verus!
