//! What passes between client and upstream, and what is learned of an answer while it passes.
use crate::affinity::Record;
use crate::headers::is_header_value;
use crate::headers::text_of;
use crate::headers::Header;
use crate::headers::HeaderView;
use crate::json::Json;
use crate::json::JsonView;
use crate::models::unavailable;
use crate::pool::Pool;
use crate::pool::PoolView;
use crate::quota::stream_hold;
use crate::quota::usage;
use crate::reply::read_failed;
use crate::reply::Failure;
use crate::reply::Reply;
use crate::text::concat;
use crate::text::contains;
use crate::text::owned;
use crate::text::same;
use crate::text::starts_with;
use vstd::prelude::*;

verus! {

/// An answer that comes as a stream of events.
pub open spec fn streams(headers: Seq<HeaderView>) -> bool {
    match crate::headers::header_text(headers, "content-type"@) {
        Some(text) => "text/event-stream"@.is_prefix_of(text),
        None => false,
    }
}

/// Whether an answer comes as a stream of events.
pub fn is_event_stream(headers: &Vec<Header>) -> (yes: bool)
    ensures
        yes == streams(crate::headers::header_views(headers@)),
{
    match text_of(headers, "content-type") {
        Some(text) => starts_with(text, "text/event-stream"),
        None => false,
    }
}

/// The headers of a request that pass to the upstream. Credentials and cookies of the client are
/// not among them.
pub open spec fn passed_names() -> Seq<Seq<char>> {
    seq![
        "content-type"@,
        "accept"@,
        "user-agent"@,
        "openai-beta"@,
        "session-id"@,
        "thread-id"@,
        "session_id"@,
        "thread_id"@,
        "x-codex-thread-id"@,
        "x-client-request-id"@,
        "x-codex-turn-state"@,
        "x-codex-routing-hint"@,
        "x-codex-turn-metadata"@,
        "originator"@,
    ]
}

fn names_to_pass() -> (names: Vec<String>)
    ensures
        crate::text::views(names@) == passed_names(),
{
    let mut names: Vec<String> = Vec::new();
    names.push(owned("content-type"));
    names.push(owned("accept"));
    names.push(owned("user-agent"));
    names.push(owned("openai-beta"));
    names.push(owned("session-id"));
    names.push(owned("thread-id"));
    names.push(owned("session_id"));
    names.push(owned("thread_id"));
    names.push(owned("x-codex-thread-id"));
    names.push(owned("x-client-request-id"));
    names.push(owned("x-codex-turn-state"));
    names.push(owned("x-codex-routing-hint"));
    names.push(owned("x-codex-turn-metadata"));
    names.push(owned("originator"));
    assert(crate::text::views(names@) =~= passed_names());
    names
}

/// The position of the first header with a name.
pub open spec fn first_position(headers: Seq<HeaderView>, name: Seq<char>) -> Option<int>
    decreases headers.len(),
{
    if headers.len() == 0 {
        None
    } else {
        match first_position(headers.drop_last(), name) {
            Some(i) => Some(i),
            None => if headers.last().name == name {
                Some(headers.len() - 1)
            } else {
                None
            },
        }
    }
}

fn position(headers: &Vec<Header>, name: &str) -> (found: Option<usize>)
    ensures
        match found {
            Some(i) => i < headers@.len() && first_position(
                crate::headers::header_views(headers@),
                name@,
            ) == Some(i as int),
            None => first_position(crate::headers::header_views(headers@), name@) is None,
        },
{
    let ghost all = crate::headers::header_views(headers@);
    let mut found: Option<usize> = None;
    let mut i: usize = 0;
    while i < headers.len()
        invariant
            i <= headers@.len(),
            all == crate::headers::header_views(headers@),
            match found {
                Some(k) => k < i && first_position(all.take(i as int), name@) == Some(k as int),
                None => first_position(all.take(i as int), name@) is None,
            },
        decreases headers@.len() - i,
    {
        assert(all.take(i + 1).drop_last() =~= all.take(i as int));
        assert(all.take(i + 1).last() == headers@[i as int]@);
        if found.is_none() && same(headers[i].name.as_str(), name) {
            found = Some(i);
        }
        i = i + 1;
    }
    assert(all.take(headers@.len() as int) =~= all);
    found
}

/// The positions of the first header of each name, in the order of the names.
pub open spec fn positions(headers: Seq<HeaderView>, names: Seq<Seq<char>>) -> Seq<int>
    decreases names.len(),
{
    if names.len() == 0 {
        Seq::empty()
    } else {
        let before = positions(headers, names.drop_last());
        match first_position(headers, names.last()) {
            Some(i) => before.push(i),
            None => before,
        }
    }
}

/// Positions as integers.
pub open spec fn indices(list: Seq<usize>) -> Seq<int> {
    list.map_values(|i: usize| i as int)
}

/// The headers of the request to an upstream: positions of headers that pass as they are, and
/// headers that are added.
pub struct Outgoing {
    pub kept: Vec<usize>,
    pub added: Vec<(String, String)>,
}

/// The headers that are added to a request to an upstream.
pub open spec fn added_headers(account_id: Option<Seq<char>>, token: Seq<char>) -> Seq<
    (Seq<char>, Seq<char>),
> {
    let start = seq![("accept-encoding"@, "identity"@)];
    let account = match account_id {
        Some(id) => start.push(("chatgpt-account-id"@, id)),
        None => start,
    };
    account.push(("authorization"@, "Bearer "@ + token))
}

/// The headers of the request to an upstream, for the account and the token that it is sent with.
pub fn request_headers(headers: &Vec<Header>, account_id: Option<&str>, token: &str) -> (result:
    Result<Outgoing, Failure>)
    ensures
        match result {
            Ok(outgoing) => {
                &&& account_id matches Some(id) ==> crate::headers::header_value(id@)
                &&& indices(outgoing.kept@) == positions(
                    crate::headers::header_views(headers@),
                    passed_names(),
                )
                &&& crate::url::pair_views(outgoing.added@) == added_headers(
                    crate::json::read(account_id),
                    token@,
                )
            },
            Err(failure) => failure == Failure::Account && (account_id matches Some(id)
                && !crate::headers::header_value(id@)),
        },
{
    let ghost all = crate::headers::header_views(headers@);
    let names = names_to_pass();
    let mut kept: Vec<usize> = Vec::new();
    let mut i: usize = 0;
    assert(indices(kept@) =~= positions(all, passed_names().take(0)));
    while i < names.len()
        invariant
            i <= names@.len(),
            all == crate::headers::header_views(headers@),
            crate::text::views(names@) == passed_names(),
            indices(kept@) == positions(all, passed_names().take(i as int)),
        decreases names@.len() - i,
    {
        proof {
            let names_so_far = passed_names().take(i + 1);
            assert(names_so_far.drop_last() =~= passed_names().take(i as int));
            assert(names_so_far.last() == crate::text::views(names@)[i as int]);
        }
        let ghost before = indices(kept@);
        if let Some(k) = position(headers, names[i].as_str()) {
            kept.push(k);
            assert(indices(kept@) =~= before.push(k as int));
        }
        i = i + 1;
    }
    assert(passed_names().take(names@.len() as int) =~= passed_names());
    let mut added: Vec<(String, String)> = Vec::new();
    added.push((owned("accept-encoding"), owned("identity")));
    if let Some(id) = account_id {
        if !is_header_value(id) {
            return Err(Failure::Account);
        }
        added.push((owned("chatgpt-account-id"), owned(id)));
    }
    added.push((owned("authorization"), concat("Bearer ", token)));
    assert(crate::url::pair_views(added@) =~= added_headers(
        crate::json::read(account_id),
        token@,
    ));
    Ok(Outgoing { kept, added })
}

/// The URL that a request is sent to: the base URL of the account, the endpoint and the query of
/// the client. There is none where the first two are no URL, or where they or the query are too
/// long for one.
pub fn target(base: &str, endpoint: &str, query: Option<&str>) -> (result: Result<String, Failure>)
    ensures
        match result {
            Ok(url) => crate::url::queried(base@ + endpoint@, crate::json::read(query)) == Some(
                url@,
            ),
            Err(failure) => failure == Failure::Url,
        },
        result is Ok <==> crate::url::url_parts(base@ + endpoint@) is Some && crate::url::query_fits(
            crate::json::read(query),
        ),
{
    let text = concat(base, endpoint);
    match crate::url::replace_query(text.as_str(), query) {
        Some(url) => Ok(url),
        None => Err(Failure::Url),
    }
}

/// A header of an answer that passes to the client.
pub open spec fn returned(name: Seq<char>) -> bool {
    ||| name == "content-type"@
    ||| name == "content-encoding"@
    ||| name == "cache-control"@
    ||| name == "retry-after"@
    ||| name == "x-request-id"@
    ||| name == "x-codex-turn-state"@
    ||| {
        &&& "x-codex-"@.is_prefix_of(name)
        &&& crate::text::occurs(name, "used-percent"@) || crate::text::occurs(name, "reset-at"@)
            || crate::text::occurs(name, "window-minutes"@)
    }
}

fn is_returned(name: &str) -> (yes: bool)
    ensures
        yes == returned(name@),
{
    same(name, "content-type") || same(name, "content-encoding") || same(name, "cache-control")
        || same(name, "retry-after") || same(name, "x-request-id") || same(
        name,
        "x-codex-turn-state",
    ) || (starts_with(name, "x-codex-") && (contains(name, "used-percent") || contains(
        name,
        "reset-at",
    ) || contains(name, "window-minutes")))
}

/// The header at a position passes to the client: of a name that passes, the last one does.
pub open spec fn is_kept(headers: Seq<HeaderView>, i: int) -> bool {
    &&& 0 <= i < headers.len()
    &&& returned(headers[i].name)
    &&& forall|j: int| i < j < headers.len() ==> (#[trigger] headers[j]).name != headers[i].name
}

/// The positions up to a given one whose headers pass to the client.
pub open spec fn kept_positions(headers: Seq<HeaderView>, count: int) -> Seq<int>
    decreases count,
{
    if count <= 0 {
        Seq::empty()
    } else {
        let before = kept_positions(headers, count - 1);
        if is_kept(headers, count - 1) {
            before.push(count - 1)
        } else {
            before
        }
    }
}

fn is_last_of_name(headers: &Vec<Header>, i: usize) -> (yes: bool)
    requires
        i < headers@.len(),
    ensures
        yes == forall|j: int|
            i < j < headers@.len() ==> (#[trigger] crate::headers::header_views(headers@)[j]).name
                != crate::headers::header_views(headers@)[i as int].name,
{
    let ghost all = crate::headers::header_views(headers@);
    assert(all[i as int] == headers@[i as int]@);
    let count: usize = headers.len();
    let mut j: usize = i + 1;
    while j < count
        invariant
            count == headers@.len(),
            i < j <= headers@.len(),
            all == crate::headers::header_views(headers@),
            all[i as int] == headers@[i as int]@,
            forall|k: int| i < k < j ==> (#[trigger] all[k]).name != all[i as int].name,
        decreases headers@.len() - j,
    {
        assert(all[j as int] == headers@[j as int]@);
        if same(headers[j].name.as_str(), headers[i].name.as_str()) {
            return false;
        }
        j = j + 1;
    }
    true
}

/// The positions of the headers of an answer that pass to the client.
pub fn response_headers(headers: &Vec<Header>) -> (kept: Vec<usize>)
    ensures
        indices(kept@) == kept_positions(
            crate::headers::header_views(headers@),
            headers@.len() as int,
        ),
{
    let ghost all = crate::headers::header_views(headers@);
    let mut kept: Vec<usize> = Vec::new();
    let mut i: usize = 0;
    assert(indices(kept@) =~= kept_positions(all, 0));
    while i < headers.len()
        invariant
            i <= headers@.len(),
            all == crate::headers::header_views(headers@),
            indices(kept@) == kept_positions(all, i as int),
        decreases headers@.len() - i,
    {
        assert(all[i as int] == headers@[i as int]@);
        let ghost before = indices(kept@);
        if is_returned(headers[i].name.as_str()) && is_last_of_name(headers, i) {
            kept.push(i);
            assert(indices(kept@) =~= before.push(i as int));
        }
        i = i + 1;
    }
    kept
}

/// Adds a piece of an answer to what was read, where it stays within a limit.
pub fn append_bounded(bytes: &mut Vec<u8>, piece: &[u8], limit: usize) -> (fits: bool)
    ensures
        fits == (old(bytes)@.len() + piece@.len() <= limit),
        fits ==> final(bytes)@ == old(bytes)@ + piece@,
        !fits ==> final(bytes)@ == old(bytes)@,
{
    if bytes.len() > limit || piece.len() > limit - bytes.len() {
        return false;
    }
    bytes.extend_from_slice(piece);
    assert(bytes@ =~= old(bytes)@ + piece@);
    true
}

/// What is learned of an answer while it passes. It is recorded once.
pub struct Observation {
    pub idx: usize,
    pub status: u16,
    pub recorded: bool,
    pub model: String,
}

/// What an observation holds.
pub struct ObservationView {
    pub idx: int,
    pub status: u16,
    pub recorded: bool,
    pub model: Seq<char>,
}

impl View for Observation {
    type V = ObservationView;

    open spec fn view(&self) -> ObservationView {
        ObservationView {
            idx: self.idx as int,
            status: self.status,
            recorded: self.recorded,
            model: self.model@,
        }
    }
}

impl ObservationView {
    /// The observation once it was recorded.
    pub open spec fn done(self) -> ObservationView {
        ObservationView { recorded: true, ..self }
    }

    /// The pool once the observation ended with an outcome: only the first end counts.
    pub open spec fn finished(
        self,
        pool: PoolView,
        outcome: Seq<char>,
        response: Option<JsonView>,
        stored: bool,
        at: u64,
    ) -> PoolView {
        if self.recorded {
            pool
        } else {
            pool.recorded(self.idx, self.status, outcome, response, self.model, stored, at)
        }
    }

    /// What is to be stored before an observation ends with a response.
    pub open spec fn binding(self, pool: PoolView, response: Option<JsonView>, at: u64) -> Option<
        crate::affinity::RecordView,
    > {
        if self.recorded {
            None
        } else {
            pool.response_binding(self.idx, response, at)
        }
    }
}

/// How an event ends an answer.
#[derive(Clone, Copy, Debug, PartialEq, Eq, Structural)]
pub enum Ending {
    Complete,
    /// The account has no access to the model.
    Unavailable,
    /// The account is rate limited until this time.
    Limited(u64),
    Failed,
}

/// How an event ends an answer, where it does.
pub open spec fn ending_of(event: JsonView, model: Seq<char>, at: u64) -> Option<Ending> {
    let kind = event.member_text("type"@);
    if kind == Some("response.completed"@) {
        Some(Ending::Complete)
    } else if kind == Some("response.failed"@) || kind == Some("response.incomplete"@) || kind
        == Some("error"@) {
        if crate::models::rejects(event, model) {
            Some(Ending::Unavailable)
        } else {
            match crate::quota::stream_hold_time(event, at) {
                Some(until) => Some(Ending::Limited(until)),
                None => Some(Ending::Failed),
            }
        }
    } else {
        None
    }
}

/// The outcome that is recorded for an end.
pub open spec fn ending_outcome(ending: Ending) -> Seq<char> {
    match ending {
        Ending::Complete => "complete"@,
        Ending::Unavailable => "stream_model_unavailable"@,
        Ending::Limited(_) => "stream_rate_limited"@,
        Ending::Failed => "stream_failed"@,
    }
}

impl Ending {
    /// The outcome that is recorded for the end.
    pub fn outcome(self) -> (text: &'static str)
        ensures
            text@ == ending_outcome(self),
    {
        match self {
            Ending::Complete => "complete",
            Ending::Unavailable => "stream_model_unavailable",
            Ending::Limited(_) => "stream_rate_limited",
            Ending::Failed => "stream_failed",
        }
    }
}

/// How an event ends an answer, where it does.
pub fn ending(event: &Json, model: &str, at: u64) -> (found: Option<Ending>)
    ensures
        found == ending_of(event@, model@, at),
{
    let kind = match event.text_at("type") {
        Some(kind) => kind,
        None => return None,
    };
    if same(kind, "response.completed") {
        return Some(Ending::Complete);
    }
    if same(kind, "response.failed") || same(kind, "response.incomplete") || same(kind, "error") {
        if unavailable(event, model) {
            return Some(Ending::Unavailable);
        }
        return match stream_hold(event, at) {
            Some(until) => Some(Ending::Limited(until)),
            None => Some(Ending::Failed),
        };
    }
    None
}

/// The pool once an event was seen: the windows that it tells of are taken in, and an account that
/// turned the request down is not used for a while.
pub open spec fn noticed(
    pool: PoolView,
    idx: int,
    model: Seq<char>,
    event: JsonView,
    at: u64,
) -> PoolView {
    let seen = pool.with_windows(idx, crate::quota::usage_windows(event, at));
    match ending_of(event, model, at) {
        Some(Ending::Unavailable) => seen.with_rejection(idx, model, at),
        Some(Ending::Limited(until)) => seen.with_account(
            idx,
            crate::pool::deferred(seen.state.accounts[idx], until),
        ),
        _ => seen,
    }
}

/// The observation of an answer of an account.
pub fn observe(idx: usize, status: u16, model: &str) -> (observation: Observation)
    ensures
        observation@ == (ObservationView {
            idx: idx as int,
            status,
            recorded: false,
            model: model@,
        }),
{
    Observation { idx, status, recorded: false, model: owned(model) }
}

impl Observation {
    /// Ends the observation with an outcome, where it has not ended yet.
    pub fn finish(
        &mut self,
        pool: &mut Pool,
        outcome: &str,
        response: Option<&Json>,
        stored: bool,
        at: u64,
    )
        requires
            old(pool).wf(),
            old(self)@.idx < old(pool)@.state.accounts.len(),
        ensures
            final(pool).wf(),
            final(pool)@ == old(self)@.finished(
                old(pool)@,
                outcome@,
                crate::json::seen(response),
                stored,
                at,
            ),
            final(self)@ == old(self)@.done(),
    {
        if self.recorded {
            return;
        }
        self.recorded = true;
        pool.record_stored(
            self.idx,
            self.status,
            outcome,
            response,
            self.model.as_str(),
            stored,
            at,
        );
    }

    /// What is to be stored before an event is taken in.
    pub fn plan(&self, pool: &Pool, event: &Json, at: u64) -> (record: Option<Record>)
        requires
            pool.wf(),
            self@.idx < pool@.state.accounts.len(),
        ensures
            crate::select::record_view(record) == match ending_of(event@, self@.model, at) {
                Some(_) => self@.binding(pool@, event@.member("response"@), at),
                None => None,
            },
    {
        if self.recorded || ending(event, self.model.as_str(), at).is_none() {
            return None;
        }
        pool.response_record(self.idx, event.get("response"), at)
    }

    /// Takes in an event of the answer; `stored` tells whether the journal takes the binding of the
    /// response, where the event ends the answer.
    pub fn event(&mut self, pool: &mut Pool, event: &Json, stored: bool, at: u64)
        requires
            old(pool).wf(),
            old(self)@.idx < old(pool)@.state.accounts.len(),
        ensures
            final(pool).wf(),
            match ending_of(event@, old(self)@.model, at) {
                Some(ending) => {
                    &&& final(pool)@ == old(self)@.finished(
                        noticed(old(pool)@, old(self)@.idx, old(self)@.model, event@, at),
                        ending_outcome(ending),
                        event@.member("response"@),
                        stored,
                        at,
                    )
                    &&& final(self)@ == old(self)@.done()
                },
                None => {
                    &&& final(pool)@ == noticed(
                        old(pool)@,
                        old(self)@.idx,
                        old(self)@.model,
                        event@,
                        at,
                    )
                    &&& final(self)@ == old(self)@
                },
            },
    {
        let windows = usage(event, at);
        pool.update_quotas(self.idx, &windows);
        let found = ending(event, self.model.as_str(), at);
        match found {
            Some(Ending::Unavailable) => {
                pool.mark_model_unavailable_at(self.idx, self.model.as_str(), at);
            },
            Some(Ending::Limited(until)) => {
                pool.defer(self.idx, until);
            },
            _ => {},
        }
        if let Some(end) = found {
            self.finish(pool, end.outcome(), event.get("response"), stored, at);
        }
    }

    /// Takes in that the answer ended. An answer that ended without an event that says so was cut
    /// off, or held an event that was too long to be read.
    pub fn end(&mut self, pool: &mut Pool, overflowed: bool, at: u64)
        requires
            old(pool).wf(),
            old(self)@.idx < old(pool)@.state.accounts.len(),
        ensures
            final(pool).wf(),
            final(pool)@ == old(self)@.finished(
                old(pool)@,
                if overflowed {
                    "observation_overflow"@
                } else {
                    "stream_truncated"@
                },
                None,
                true,
                at,
            ),
            final(self)@ == old(self)@.done(),
    {
        let outcome = if overflowed {
            "observation_overflow"
        } else {
            "stream_truncated"
        };
        self.finish(pool, outcome, None, true, at);
    }

    /// Takes in that the answer was interrupted on the way from the upstream.
    pub fn interrupted(&mut self, pool: &mut Pool, at: u64)
        requires
            old(pool).wf(),
            old(self)@.idx < old(pool)@.state.accounts.len(),
        ensures
            final(pool).wf(),
            final(pool)@ == old(self)@.finished(
                old(pool)@,
                "stream_transport_failed"@,
                None,
                true,
                at,
            ),
            final(self)@ == old(self)@.done(),
    {
        self.finish(pool, "stream_transport_failed", None, true, at);
    }

    /// Takes in that the client went away.
    pub fn abandoned(&mut self, pool: &mut Pool, at: u64)
        requires
            old(pool).wf(),
            old(self)@.idx < old(pool)@.state.accounts.len(),
        ensures
            final(pool).wf(),
            final(pool)@ == old(self)@.finished(old(pool)@, "client_disconnected"@, None, true, at),
            final(self)@ == old(self)@.done(),
    {
        self.finish(pool, "client_disconnected", None, true, at);
    }

    /// Takes in that an answer that is no stream could not be read.
    pub fn unread(&mut self, pool: &mut Pool, at: u64) -> (reply: Reply)
        requires
            old(pool).wf(),
            old(self)@.idx < old(pool)@.state.accounts.len(),
        ensures
            final(pool).wf(),
            final(pool)@ == old(self)@.finished(old(pool)@, "response_read_failed"@, None, true, at),
            final(self)@ == old(self)@.done(),
            reply@ == crate::reply::unread(),
    {
        self.finish(pool, "response_read_failed", None, true, at);
        read_failed()
    }

    /// What is to be stored before an answer that is no stream is taken in.
    pub fn plan_body(&self, pool: &Pool, value: Option<&Json>, at: u64) -> (record: Option<Record>)
        requires
            pool.wf(),
            self@.idx < pool@.state.accounts.len(),
        ensures
            crate::select::record_view(record) == self@.binding(
                pool@,
                crate::json::seen(value),
                at,
            ),
    {
        if self.recorded {
            return None;
        }
        pool.response_record(self.idx, value, at)
    }

    /// Takes in an answer that is no stream, given its JSON value where it is one.
    pub fn body(&mut self, pool: &mut Pool, value: Option<&Json>, stored: bool, at: u64)
        requires
            old(pool).wf(),
            old(self)@.idx < old(pool)@.state.accounts.len(),
        ensures
            final(pool).wf(),
            final(pool)@ == old(self)@.finished(
                old(pool)@,
                if 200 <= old(self)@.status < 300 {
                    "complete"@
                } else {
                    "upstream_rejected"@
                },
                crate::json::seen(value),
                stored,
                at,
            ),
            final(self)@ == old(self)@.done(),
    {
        let outcome = if 200 <= self.status && self.status < 300 {
            "complete"
        } else {
            "upstream_rejected"
        };
        self.finish(pool, outcome, value, stored, at);
    }

    /// Takes in the bytes of an answer that is no stream.
    pub fn body_bytes(&mut self, pool: &mut Pool, bytes: &[u8], stored: bool, at: u64)
        requires
            old(pool).wf(),
            old(self)@.idx < old(pool)@.state.accounts.len(),
        ensures
            final(pool).wf(),
            final(pool)@ == old(self)@.finished(
                old(pool)@,
                if 200 <= old(self)@.status < 300 {
                    "complete"@
                } else {
                    "upstream_rejected"@
                },
                crate::json::json_value(bytes@),
                stored,
                at,
            ),
            final(self)@ == old(self)@.done(),
    {
        let value = Json::parse(bytes);
        self.body(pool, value.as_ref(), stored, at);
    }
}

proof fn lemma_first_position(headers: Seq<HeaderView>, name: Seq<char>)
    ensures
        first_position(headers, name) matches Some(i) ==> 0 <= i < headers.len() && headers[i].name
            == name,
    decreases headers.len(),
{
    if headers.len() > 0 {
        lemma_first_position(headers.drop_last(), name);
    }
}

proof fn lemma_positions(headers: Seq<HeaderView>, names: Seq<Seq<char>>, k: int)
    requires
        0 <= k < positions(headers, names).len(),
    ensures
        0 <= positions(headers, names)[k] < headers.len(),
        names.contains(headers[positions(headers, names)[k]].name),
    decreases names.len(),
{
    let rest = names.drop_last();
    let before = positions(headers, rest);
    lemma_first_position(headers, names.last());
    if k < before.len() {
        lemma_positions(headers, rest, k);
        let name = headers[before[k]].name;
        let n = choose|n: int| 0 <= n < rest.len() && rest[n] == name;
        assert(names[n] == name);
    } else {
        assert(names[names.len() - 1] == headers[positions(headers, names)[k]].name);
    }
}

/// No credential and no cookie of a client passes to an upstream.
pub proof fn client_credentials_do_not_pass(headers: Seq<HeaderView>, k: int)
    requires
        0 <= k < positions(headers, passed_names()).len(),
    ensures
        ({
            let i = positions(headers, passed_names())[k];
            &&& 0 <= i < headers.len()
            &&& passed_names().contains(headers[i].name)
            &&& headers[i].name != "authorization"@
            &&& headers[i].name != "cookie"@
            &&& headers[i].name != "chatgpt-account-id"@
        }),
{
    lemma_positions(headers, passed_names(), k);
    let i = positions(headers, passed_names())[k];
    let name = headers[i].name;
    let n = choose|n: int| 0 <= n < passed_names().len() && passed_names()[n] == name;
    assert(passed_names()[n] == name);
    reveal_strlit("authorization");
    reveal_strlit("cookie");
    reveal_strlit("chatgpt-account-id");
    reveal_strlit("content-type");
    reveal_strlit("accept");
    reveal_strlit("user-agent");
    reveal_strlit("openai-beta");
    reveal_strlit("session-id");
    reveal_strlit("thread-id");
    reveal_strlit("session_id");
    reveal_strlit("thread_id");
    reveal_strlit("x-codex-thread-id");
    reveal_strlit("x-client-request-id");
    reveal_strlit("x-codex-turn-state");
    reveal_strlit("x-codex-routing-hint");
    reveal_strlit("x-codex-turn-metadata");
    reveal_strlit("originator");
    assert("authorization"@[0] == 'a' && "authorization"@[1] == 'u');
    assert("accept"@[0] == 'a' && "accept"@[1] == 'c');
    assert("cookie"@[0] == 'c' && "cookie"@.len() == 6);
    assert("chatgpt-account-id"@[0] == 'c' && "chatgpt-account-id"@.len() == 18);
    assert("content-type"@[0] == 'c' && "content-type"@.len() == 12);
    assert("user-agent"@[0] == 'u');
    assert("openai-beta"@[0] == 'o');
    assert("session-id"@[0] == 's');
    assert("thread-id"@[0] == 't');
    assert("session_id"@[0] == 's');
    assert("thread_id"@[0] == 't');
    assert("x-codex-thread-id"@[0] == 'x');
    assert("x-client-request-id"@[0] == 'x');
    assert("x-codex-turn-state"@[0] == 'x');
    assert("x-codex-routing-hint"@[0] == 'x');
    assert("x-codex-turn-metadata"@[0] == 'x');
    assert("originator"@[0] == 'o');
}

proof fn lemma_kept_positions(headers: Seq<HeaderView>, count: int, k: int)
    requires
        0 <= k < kept_positions(headers, count).len(),
    ensures
        is_kept(headers, kept_positions(headers, count)[k]),
    decreases count,
{
    if k < kept_positions(headers, count - 1).len() {
        lemma_kept_positions(headers, count - 1, k);
    }
}

/// No cookie and no header of authentication passes from an upstream to a client.
pub proof fn upstream_credentials_do_not_pass(headers: Seq<HeaderView>, k: int)
    requires
        0 <= k < kept_positions(headers, headers.len() as int).len(),
    ensures
        ({
            let i = kept_positions(headers, headers.len() as int)[k];
            &&& 0 <= i < headers.len()
            &&& returned(headers[i].name)
            &&& headers[i].name != "set-cookie"@
            &&& headers[i].name != "authorization"@
            &&& headers[i].name != "www-authenticate"@
        }),
{
    lemma_kept_positions(headers, headers.len() as int, k);
    reveal_strlit("set-cookie");
    reveal_strlit("authorization");
    reveal_strlit("www-authenticate");
    reveal_strlit("content-type");
    reveal_strlit("content-encoding");
    reveal_strlit("cache-control");
    reveal_strlit("retry-after");
    reveal_strlit("x-request-id");
    reveal_strlit("x-codex-turn-state");
    reveal_strlit("x-codex-");
    let name = headers[kept_positions(headers, headers.len() as int)[k]].name;
    assert("content-type"@[0] == 'c');
    assert("content-encoding"@[0] == 'c');
    assert("cache-control"@[0] == 'c');
    assert("retry-after"@[0] == 'r');
    assert("x-request-id"@[0] == 'x');
    assert("x-codex-turn-state"@[0] == 'x');
    assert("x-codex-"@.len() == 8 && "x-codex-"@[0] == 'x');
    if "x-codex-"@.is_prefix_of(name) {
        assert(name.take(8)[0] == name[0]);
    }
    assert("set-cookie"@[0] == 's');
    assert("authorization"@[0] == 'a');
    assert("www-authenticate"@[0] == 'w');
}

/// An answer is recorded once: what ends it a second time changes nothing.
pub proof fn answer_is_recorded_once(
    observation: ObservationView,
    pool: PoolView,
    outcome: Seq<char>,
    response: Option<JsonView>,
    stored: bool,
    at: u64,
)
    ensures
        observation.done().finished(pool, outcome, response, stored, at) == pool,
{
}

/// An account that rejected the model in the middle of an answer is not asked for it for a while.
pub proof fn rejection_in_a_stream_closes_the_model(
    pool: PoolView,
    idx: int,
    model: Seq<char>,
    event: JsonView,
    at: u64,
)
    requires
        pool.wf(),
        0 <= idx < pool.state.accounts.len(),
        ending_of(event, model, at) == Some(Ending::Unavailable),
        crate::pool::is_model_name(model),
        at < u64::MAX,
    ensures
        !crate::select::model_is_open(
            noticed(pool, idx, model, event, at).state.accounts[idx],
            model,
            at,
        ),
{
}

/// A rate limit in the middle of an answer puts the account on hold, and no other.
pub proof fn limit_in_a_stream_holds_the_account(
    pool: PoolView,
    idx: int,
    model: Seq<char>,
    event: JsonView,
    until: u64,
    at: u64,
    i: int,
)
    requires
        pool.wf(),
        0 <= idx < pool.state.accounts.len(),
        0 <= i < pool.state.accounts.len(),
        ending_of(event, model, at) == Some(Ending::Limited(until)),
    ensures
        noticed(pool, idx, model, event, at).state.accounts[idx].hold_until >= until,
        i != idx ==> noticed(pool, idx, model, event, at).state.accounts[i]
            == pool.state.accounts[i],
{
}

proof fn lemma_position_is_first(headers: Seq<HeaderView>, name: Seq<char>, i: int)
    ensures
        first_position(headers, name) == Some(i) <==> crate::headers::stands_first(headers, i, name),
    decreases headers.len(),
{
    if headers.len() > 0 {
        let rest = headers.drop_last();
        let last = headers.len() - 1;
        assert forall|j: int| 0 <= j < last implies #[trigger] headers[j] == rest[j] by {}
        lemma_position_is_first(rest, name, i);
        if first_position(rest, name) is Some {
            let k = first_position(rest, name)->Some_0;
            lemma_position_is_first(rest, name, k);
            assert(headers[k].name == name);
        } else if crate::headers::stands_first(headers, i, name) && i < last {
            assert forall|j: int| 0 <= j < i implies (#[trigger] rest[j]).name != name by {
                assert(headers[j].name != name);
            }
        } else if headers.last().name == name {
            assert forall|j: int| 0 <= j < last implies (#[trigger] headers[j]).name != name by {
                if headers[j].name == name {
                    lemma_has_position(rest, name, j);
                }
            }
        }
    }
}

proof fn lemma_has_position(headers: Seq<HeaderView>, name: Seq<char>, i: int)
    requires
        0 <= i < headers.len(),
        headers[i].name == name,
    ensures
        first_position(headers, name) is Some,
    decreases headers.len(),
{
    if i < headers.len() - 1 {
        lemma_has_position(headers.drop_last(), name, i);
    }
}

proof fn lemma_names_positions(headers: Seq<HeaderView>, names: Seq<Seq<char>>)
    ensures
        forall|k: int, i: int|
            0 <= k < names.len() && #[trigger] crate::headers::stands_first(
                headers,
                i,
                #[trigger] names[k],
            ) ==> positions(headers, names).contains(i),
        forall|k: int|
            0 <= k < positions(headers, names).len() ==> exists|l: int|
                0 <= l < names.len() && crate::headers::stands_first(
                    headers,
                    #[trigger] positions(headers, names)[k],
                    #[trigger] names[l],
                ),
        names.no_duplicates() ==> positions(headers, names).no_duplicates(),
    decreases names.len(),
{
    if names.len() > 0 {
        let rest = names.drop_last();
        let before = positions(headers, rest);
        let all = positions(headers, names);
        lemma_names_positions(headers, rest);
        assert forall|k: int| 0 <= k < rest.len() implies #[trigger] names[k] == rest[k] by {}
        assert forall|i: int| before.contains(i) implies all.contains(i) by {
            let k = before.index_of(i);
            assert(all[k] == i);
        }
        assert forall|k: int, i: int|
            0 <= k < names.len() && #[trigger] crate::headers::stands_first(
                headers,
                i,
                #[trigger] names[k],
            ) implies all.contains(i) by {
            if k < rest.len() {
                assert(names[k] == rest[k]);
                assert(crate::headers::stands_first(headers, i, rest[k]));
                assert(before.contains(i));
            } else {
                lemma_position_is_first(headers, names.last(), i);
                assert(all.last() == i);
            }
        }
        assert forall|k: int| 0 <= k < all.len() implies exists|l: int|
            0 <= l < names.len() && crate::headers::stands_first(
                headers,
                #[trigger] all[k],
                #[trigger] names[l],
            ) by {
            if k < before.len() {
                assert(all[k] == before[k]);
                let l = choose|l: int|
                    0 <= l < rest.len() && crate::headers::stands_first(
                        headers,
                        before[k],
                        #[trigger] rest[l],
                    );
                assert(names[l] == rest[l]);
            } else {
                lemma_position_is_first(headers, names.last(), all[k]);
                assert(names[names.len() - 1] == names.last());
            }
        }
        if names.no_duplicates() {
            assert(rest.no_duplicates());
            if first_position(headers, names.last()) is Some {
                let i = first_position(headers, names.last())->Some_0;
                lemma_position_is_first(headers, names.last(), i);
                assert forall|k: int| 0 <= k < before.len() implies #[trigger] before[k] != i by {
                    let l = choose|l: int|
                        0 <= l < rest.len() && crate::headers::stands_first(
                            headers,
                            before[k],
                            #[trigger] rest[l],
                        );
                    assert(names[l] == rest[l]);
                    assert(names[l] != names[names.len() - 1]);
                }
            }
        }
    }
}

/// Whether a header belongs to the protocol between the client and the upstream.
pub open spec fn is_protocol_name(name: Seq<char>) -> bool {
    ||| name == "content-type"@
    ||| name == "accept"@
    ||| name == "user-agent"@
    ||| name == "openai-beta"@
    ||| name == "session-id"@
    ||| name == "thread-id"@
    ||| name == "session_id"@
    ||| name == "thread_id"@
    ||| name == "x-codex-thread-id"@
    ||| name == "x-client-request-id"@
    ||| name == "x-codex-turn-state"@
    ||| name == "x-codex-routing-hint"@
    ||| name == "x-codex-turn-metadata"@
    ||| name == "originator"@
}

proof fn lemma_passed_names()
    ensures
        forall|name: Seq<char>| #[trigger]
            is_protocol_name(name) ==> exists|k: int|
                0 <= k < passed_names().len() && #[trigger] passed_names()[k] == name,
        forall|k: int|
            0 <= k < passed_names().len() ==> is_protocol_name(#[trigger] passed_names()[k]),
        passed_names().no_duplicates(),
{
    let names = passed_names();
    reveal_strlit("content-type");
    reveal_strlit("accept");
    reveal_strlit("user-agent");
    reveal_strlit("openai-beta");
    reveal_strlit("session-id");
    reveal_strlit("thread-id");
    reveal_strlit("session_id");
    reveal_strlit("thread_id");
    reveal_strlit("x-codex-thread-id");
    reveal_strlit("x-client-request-id");
    reveal_strlit("x-codex-turn-state");
    reveal_strlit("x-codex-routing-hint");
    reveal_strlit("x-codex-turn-metadata");
    reveal_strlit("originator");
    assert(names[4][7] != names[6][7]);
    assert(names[5][6] != names[7][6]);
    assert(names[2][0] == 'u' && names[4][0] == 's' && names[6][0] == 's' && names[13][0] == 'o');
    assert(names[0] == "content-type"@);
    assert(names[1] == "accept"@);
    assert(names[2] == "user-agent"@);
    assert(names[3] == "openai-beta"@);
    assert(names[4] == "session-id"@);
    assert(names[5] == "thread-id"@);
    assert(names[6] == "session_id"@);
    assert(names[7] == "thread_id"@);
    assert(names[8] == "x-codex-thread-id"@);
    assert(names[9] == "x-client-request-id"@);
    assert(names[10] == "x-codex-turn-state"@);
    assert(names[11] == "x-codex-routing-hint"@);
    assert(names[12] == "x-codex-turn-metadata"@);
    assert(names[13] == "originator"@);
    assert(names[0].len() == 12);
    assert(names[1].len() == 6);
    assert(names[2].len() == 10);
    assert(names[3].len() == 11);
    assert(names[4].len() == 10);
    assert(names[5].len() == 9);
    assert(names[6].len() == 10);
    assert(names[7].len() == 9);
    assert(names[8].len() == 17);
    assert(names[9].len() == 19);
    assert(names[10].len() == 18);
    assert(names[11].len() == 20);
    assert(names[12].len() == 21);
    assert(names[13].len() == 10);
}

/// Every header of the protocol goes to the upstream: the first one of each name, which are
/// `content-type`, `accept`, `user-agent`, `openai-beta`, the five names of a session, the request's
/// own identifier, the three that Codex sends, and `originator`.
pub proof fn protocol_headers_pass(headers: Seq<HeaderView>, i: int, name: Seq<char>)
    requires
        crate::headers::stands_first(headers, i, name),
        name == "content-type"@ || name == "accept"@ || name == "user-agent"@ || name
            == "openai-beta"@ || name == "session-id"@ || name == "thread-id"@ || name
            == "session_id"@ || name == "thread_id"@ || name == "x-codex-thread-id"@ || name
            == "x-client-request-id"@ || name == "x-codex-turn-state"@ || name
            == "x-codex-routing-hint"@ || name == "x-codex-turn-metadata"@ || name
            == "originator"@,
    ensures
        positions(headers, passed_names()).contains(i),
{
    lemma_passed_names();
    assert(is_protocol_name(name));
    let k = choose|k: int| 0 <= k < passed_names().len() && #[trigger] passed_names()[k] == name;
    lemma_names_positions(headers, passed_names());
    assert(crate::headers::stands_first(headers, i, passed_names()[k]));
}

/// Nothing but the headers of the protocol goes to the upstream, and each of them goes once.
pub proof fn only_protocol_headers_pass(headers: Seq<HeaderView>, k: int, l: int)
    requires
        0 <= k < positions(headers, passed_names()).len(),
        0 <= l < positions(headers, passed_names()).len(),
    ensures
        ({
            let i = positions(headers, passed_names())[k];
            &&& 0 <= i < headers.len()
            &&& is_protocol_name(headers[i].name)
            &&& crate::headers::stands_first(headers, i, headers[i].name)
            &&& k != l ==> i != positions(headers, passed_names())[l]
        }),
{
    lemma_passed_names();
    lemma_names_positions(headers, passed_names());
    let m = choose|m: int|
        0 <= m < passed_names().len() && crate::headers::stands_first(
            headers,
            positions(headers, passed_names())[k],
            #[trigger] passed_names()[m],
        );
    assert(is_protocol_name(passed_names()[m]));
}

/// What the proxy adds to a request: it asks for a plain body, names the account where it has an
/// identifier, and carries the token of the account; it adds nothing else.
pub proof fn request_carries_the_account(
    account_id: Option<Seq<char>>,
    token: Seq<char>,
    id: Seq<char>,
)
    ensures
        added_headers(account_id, token).contains(("accept-encoding"@, "identity"@)),
        added_headers(account_id, token).contains(("authorization"@, "Bearer "@ + token)),
        added_headers(account_id, token).contains(("chatgpt-account-id"@, id)) <==> account_id
            == Some(id),
        added_headers(account_id, token).len() == (if account_id is Some {
            3int
        } else {
            2
        }),
{
    let added = added_headers(account_id, token);
    reveal_strlit("accept-encoding");
    reveal_strlit("authorization");
    reveal_strlit("chatgpt-account-id");
    assert("accept-encoding"@.len() == 15 && "authorization"@.len() == 13
        && "chatgpt-account-id"@.len() == 18);
    assert(added[0] == ("accept-encoding"@, "identity"@));
    assert(added[added.len() - 1] == ("authorization"@, "Bearer "@ + token));
    if account_id is Some {
        assert(added[1] == ("chatgpt-account-id"@, account_id->Some_0));
    }
}

proof fn lemma_last_positions(headers: Seq<HeaderView>, count: int, i: int)
    ensures
        kept_positions(headers, count).contains(i) <==> 0 <= i < count && is_kept(headers, i),
        forall|k: int, l: int|
            0 <= k < l < kept_positions(headers, count).len() ==> #[trigger] kept_positions(
                headers,
                count,
            )[k] < #[trigger] kept_positions(headers, count)[l],
        forall|k: int|
            0 <= k < kept_positions(headers, count).len() ==> #[trigger] kept_positions(
                headers,
                count,
            )[k] < count,
    decreases count,
{
    if count > 0 {
        lemma_last_positions(headers, count - 1, i);
        let before = kept_positions(headers, count - 1);
        let all = kept_positions(headers, count);
        if is_kept(headers, count - 1) {
            assert(all == before.push(count - 1));
            assert(all[all.len() - 1] == count - 1);
            if before.contains(i) {
                assert(all[before.index_of(i)] == i);
            }
            if all.contains(i) && i != count - 1 {
                assert(before[all.index_of(i)] == i);
            }
        }
    }
}

/// What goes back to the client: of each name the last header, where the name is one of six, or is
/// one of Codex that tells the use, the reset or the length of a window. The order stays.
pub proof fn upstream_headers_return(headers: Seq<HeaderView>, i: int)
    requires
        0 <= i < headers.len(),
    ensures
        ({
            let name = headers[i].name;
            let named = name == "content-type"@ || name == "content-encoding"@ || name
                == "cache-control"@ || name == "retry-after"@ || name == "x-request-id"@ || name
                == "x-codex-turn-state"@;
            let window = "x-codex-"@.is_prefix_of(name) && (crate::text::occurs(
                name,
                "used-percent"@,
            ) || crate::text::occurs(name, "reset-at"@) || crate::text::occurs(
                name,
                "window-minutes"@,
            ));
            let last = forall|j: int|
                i < j < headers.len() ==> (#[trigger] headers[j]).name != name;
            kept_positions(headers, headers.len() as int).contains(i) <==> (named || window) && last
        }),
        forall|k: int, l: int|
            0 <= k < l < kept_positions(headers, headers.len() as int).len()
                ==> #[trigger] kept_positions(headers, headers.len() as int)[k]
                < #[trigger] kept_positions(headers, headers.len() as int)[l],
{
    lemma_last_positions(headers, headers.len() as int, i);
}

/// An answer is a stream exactly where its first `content-type` begins as an event stream's.
pub proof fn streams_are_told_by_their_type(headers: Seq<HeaderView>, i: int)
    ensures
        crate::headers::stands_first(headers, i, "content-type"@) ==> (streams(headers)
            <==> headers[i].text is Some && "text/event-stream"@.is_prefix_of(
            headers[i].text->Some_0,
        )),
        streams(headers) ==> crate::headers::has_header(headers, "content-type"@),
{
    crate::headers::first_header_is_read(headers, "content-type"@);
}

/// A stream ends well with `response.completed`, and badly with `response.failed`,
/// `response.incomplete` or `error`, which may reject the model or tell of a limit; no other event
/// ends it.
pub proof fn streams_end_as_their_events_say(event: JsonView, model: Seq<char>, at: u64, until: u64)
    ensures
        ({
            let kind = event.member_text("type"@);
            let ending = ending_of(event, model, at);
            let bad = kind == Some("response.failed"@) || kind == Some("response.incomplete"@)
                || kind == Some("error"@);
            let rejected = crate::models::rejects(event, model);
            let limit = crate::quota::stream_hold_time(event, at);
            &&& ending == Some(Ending::Complete) <==> kind == Some("response.completed"@)
            &&& ending == Some(Ending::Unavailable) <==> bad && rejected
            &&& ending == Some(Ending::Limited(until)) <==> bad && !rejected && limit == Some(until)
            &&& ending == Some(Ending::Failed) <==> bad && !rejected && limit is None
            &&& ending is None <==> !bad && kind != Some("response.completed"@)
        }),
{
    reveal_strlit("response.completed");
    reveal_strlit("response.failed");
    reveal_strlit("response.incomplete");
    reveal_strlit("error");
    assert("response.completed"@.len() == 18 && "response.failed"@.len() == 15
        && "response.incomplete"@.len() == 19 && "error"@.len() == 5);
}

/// A completed stream with a good status counts no error and clears the last one; any other ending
/// counts an error and says which it was.
pub proof fn stream_endings_are_recorded(
    observation: ObservationView,
    pool: PoolView,
    ending: Ending,
    response: Option<JsonView>,
    stored: bool,
    at: u64,
)
    requires
        pool.wf(),
        0 <= observation.idx < pool.state.accounts.len(),
        !observation.recorded,
        pool.state.accounts[observation.idx].errors < u64::MAX,
    ensures
        ({
            let before = pool.state.accounts[observation.idx];
            let after = observation.finished(
                pool,
                ending_outcome(ending),
                response,
                stored,
                at,
            ).state.accounts[observation.idx];
            &&& ending is Complete && observation.status < 400 ==> after.errors == before.errors
            &&& ending is Complete ==> after.last_error is None
            &&& !(ending is Complete) || observation.status >= 400 ==> after.errors == before.errors
                + 1
            &&& ending is Unavailable ==> after.last_error == Some("stream_model_unavailable"@)
            &&& ending is Limited ==> after.last_error == Some("stream_rate_limited"@)
            &&& ending is Failed ==> after.last_error == Some("stream_failed"@)
        }),
{
    reveal_strlit("complete");
    reveal_strlit("stream_model_unavailable");
    reveal_strlit("stream_rate_limited");
    reveal_strlit("stream_failed");
    assert("complete"@.len() == 8 && "stream_model_unavailable"@.len() == 24
        && "stream_rate_limited"@.len() == 19 && "stream_failed"@.len() == 13);
}

} // verus!
