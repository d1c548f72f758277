//! How a request finds an account that serves it.
//!
//! An [`Attempt`] goes from account to account. Each step tells what is to be done next, and takes in
//! what came of it. A request is sent to another account only where the one before did not take it:
//! there was no token, no connection, or an answer that turned it down.
use crate::config::Kind;
use crate::forward::is_event_stream;
use crate::headers::Header;
use crate::headers::HeaderView;
use crate::json::Json;
use crate::json::JsonView;
use crate::models::unavailable;
use crate::pool::AccountStateView;
use crate::pool::Pool;
use crate::pool::PoolView;
use crate::pool::StateView;
use crate::quota::Windows;
use crate::reply::error;
use crate::reply::held;
use crate::reply::pool_exhausted;
use crate::reply::read_failed;
use crate::reply::routing_error;
use crate::reply::send_failure;
use crate::reply::Failure;
use crate::reply::Reply;
use crate::reply::ReplyView;
use crate::route::Asked;
use crate::route::AskedView;
use crate::select::Ask;
use crate::select::Choice;
use vstd::prelude::*;

verus! {

/// For how many seconds an account is not used whose token is missing or rejected.
pub const CREDENTIAL_HOLD: u64 = 30;

/// For how many seconds an account is not used that could not be connected to.
pub const CONNECT_HOLD: u64 = 1;

/// After how many milliseconds a connection is tried again, once it failed so many times before.
/// Nothing was sent, so trying again is safe. The delays and the hold after them end within the
/// three seconds in which Codex asks again itself.
pub fn connect_delay(failures: u64) -> (delay: Option<u64>)
    ensures
        delay == if failures == 0 {
            Some(200u64)
        } else if failures == 1 {
            Some(600u64)
        } else {
            None
        },
{
    if failures == 0 {
        Some(200)
    } else if failures == 1 {
        Some(600)
    } else {
        None
    }
}

/// A request on its way from account to account.
pub struct Attempt {
    pub asked: Asked,
    pub pinned: Option<usize>,
    /// The accounts that it was tried with.
    pub tried: Vec<usize>,
    /// Some account had no token that works.
    pub auth_failure: bool,
    /// Some account could not be connected to.
    pub connect_failure: bool,
}

/// What an attempt holds.
#[verifier::ext_equal]
pub struct AttemptView {
    pub asked: AskedView,
    pub pinned: Option<usize>,
    pub tried: Seq<usize>,
    pub auth_failure: bool,
    pub connect_failure: bool,
}

impl View for Attempt {
    type V = AttemptView;

    open spec fn view(&self) -> AttemptView {
        AttemptView {
            asked: self.asked@,
            pinned: self.pinned,
            tried: self.tried@,
            auth_failure: self.auth_failure,
            connect_failure: self.connect_failure,
        }
    }
}

impl AttemptView {
    /// No account was tried twice, and each is one of the pool.
    pub open spec fn wf(self, accounts: nat) -> bool {
        &&& self.tried.no_duplicates()
        &&& forall|k: int| 0 <= k < self.tried.len() ==> #[trigger] self.tried[k] < accounts
    }

    /// What is asked of the pool.
    pub open spec fn question(self, at: u64) -> Ask {
        Ask {
            model: self.asked.model,
            group: self.asked.group,
            pinned: self.pinned,
            tried: self.tried,
            at,
        }
    }

    /// What is asked of the pool before any account was tried.
    pub open spec fn first_question(self, at: u64) -> Ask {
        Ask {
            model: self.asked.model,
            group: self.asked.group,
            pinned: self.pinned,
            tried: Seq::empty(),
            at,
        }
    }

    /// The key of the session.
    pub open spec fn key(self) -> Option<Seq<char>> {
        match self.asked.session {
            Some(session) => Some(
                crate::identity::session_key(self.asked.model, self.asked.group, session),
            ),
            None => None,
        }
    }

    /// The attempt once an account is tried.
    pub open spec fn trying(self, idx: int) -> AttemptView {
        AttemptView { tried: self.tried.push(idx as usize), ..self }
    }

    /// The attempt once an account had no token that works.
    pub open spec fn without_token(self) -> AttemptView {
        AttemptView { auth_failure: true, ..self }
    }

    /// The attempt once an account could not be connected to.
    pub open spec fn without_connection(self) -> AttemptView {
        AttemptView { connect_failure: true, ..self }
    }
}

/// What is to be done next.
pub enum Action {
    /// Store the record of the choice, then tell whether it was stored.
    Store(Choice),
    /// Find a token of this account.
    Authorize(usize),
    /// Send the request to this account; `renewed` where its token was renewed for it.
    Send { idx: usize, renewed: bool },
    /// Find another token of this account: the last one was rejected.
    Renew(usize),
    /// Read the whole answer of this account.
    Read { idx: usize, status: u16 },
    /// Hand the answer of this account on as it comes.
    Forward(usize),
    /// Hand the answer that was read on.
    Pass,
    /// Answer the request.
    Answer(Reply),
}

/// What is to be done next.
pub enum ActionView {
    Store { idx: int, record: crate::affinity::RecordView },
    Authorize(int),
    Send { idx: int, renewed: bool },
    Renew(int),
    Read { idx: int, status: u16 },
    Forward(int),
    Pass,
    Answer(ReplyView),
}

impl View for Action {
    type V = ActionView;

    open spec fn view(&self) -> ActionView {
        match self {
            Action::Store(choice) => ActionView::Store {
                idx: choice.idx as int,
                record: crate::select::record_view(choice.record)->Some_0,
            },
            Action::Authorize(idx) => ActionView::Authorize(*idx as int),
            Action::Send { idx, renewed } => ActionView::Send {
                idx: *idx as int,
                renewed: *renewed,
            },
            Action::Renew(idx) => ActionView::Renew(*idx as int),
            Action::Read { idx, status } => ActionView::Read { idx: *idx as int, status: *status },
            Action::Forward(idx) => ActionView::Forward(*idx as int),
            Action::Pass => ActionView::Pass,
            Action::Answer(reply) => ActionView::Answer(reply@),
        }
    }
}

/// The answer where no account served the request, but for when to ask again.
pub open spec fn is_last_answer(
    pool: PoolView,
    attempt: AttemptView,
    at: u64,
    reply: ReplyView,
) -> bool {
    if pool.model_closed(attempt.asked.model, attempt.asked.group, attempt.pinned, at) {
        reply == crate::reply::plain(
            404,
            "model_unavailable"@,
            "No account eligible for this request supports the requested model"@,
        )
    } else if attempt.auth_failure {
        reply == crate::reply::no_credentials()
    } else if attempt.connect_failure {
        reply == crate::reply::plain(
            503,
            "upstream_unavailable"@,
            "Cannot connect to an eligible upstream"@,
        )
    } else if exists|i: int| pool.on_hold(i, at) {
        exists|i: int| #[trigger]
            pool.first_hold(i, at) && reply == crate::reply::on_hold(
                match pool.state.accounts[i].last_error {
                    Some(reason) => reason,
                    None => Seq::empty(),
                },
            )
    } else {
        exists|resets_at: Option<u64>|
            reply == #[trigger] crate::reply::exhausted(resets_at) && match resets_at {
                Some(time) => pool.quota_resets(at, time) && forall|other: u64| #[trigger]
                    pool.quota_resets(at, other) ==> time <= other,
                None => forall|other: u64| !#[trigger] pool.quota_resets(at, other),
            }
    }
}

/// The answer where no account served the request.
pub open spec fn concluded(
    pool: PoolView,
    attempt: AttemptView,
    at: u64,
    reply: ReplyView,
) -> bool {
    if pool.state.routing.failed {
        reply == crate::reply::routing_failed()
    } else {
        &&& reply.retry_after matches Some(seconds) && pool.is_wait(at, seconds)
        &&& is_last_answer(pool, attempt, at, ReplyView { retry_after: None, ..reply })
    }
}

/// No account can take the request.
pub open spec fn none_left(pool: PoolView, attempt: AttemptView, at: u64) -> bool {
    pool.state.routing.failed || forall|i: int|
        !#[trigger] pool.eligible(i, attempt.question(at))
}

/// What is done next, once the account before did not take the request.
pub open spec fn advanced(
    pool: PoolView,
    attempt: AttemptView,
    at: u64,
    after: PoolView,
    next: AttemptView,
    action: ActionView,
) -> bool {
    if none_left(pool, attempt, at) {
        &&& after == pool
        &&& next == attempt
        &&& action matches ActionView::Answer(reply) && concluded(pool, attempt, at, reply)
    } else {
        exists|i: int| #[trigger]
            pool.chosen(i, attempt.key(), attempt.question(at)) && match crate::select::planned(
                pool,
                attempt.key(),
                i,
                at,
            ) {
                Some(record) => {
                    &&& after == pool
                    &&& next == attempt
                    &&& action == ActionView::Store { idx: i, record }
                },
                None => {
                    &&& after == pool.with_selection(i, None, at)
                    &&& next == attempt.trying(i)
                    &&& action == ActionView::Authorize(i)
                },
            }
    }
}

impl PoolView {
    /// The pool with an account on hold until a given time at least.
    pub open spec fn with_hold(self, idx: int, until: u64, reason: Seq<char>) -> PoolView {
        self.with_account(idx, crate::pool::held(self.state.accounts[idx], until, reason))
    }

    /// The pool with the windows of an account taken in.
    pub open spec fn with_windows(self, idx: int, windows: Windows) -> PoolView {
        self.with_account(
            idx,
            AccountStateView {
                quotas: self.state.accounts[idx].quotas.union_prefer_right(windows),
                ..self.state.accounts[idx]
            },
        )
    }

    /// The pool with a model marked as rejected by an account.
    pub open spec fn with_rejection(self, idx: int, model: Seq<char>, at: u64) -> PoolView {
        self.with_account(idx, crate::pool::marked(self.state.accounts[idx], model, at))
    }
}

fn borrow(text: &Option<String>) -> (borrowed: Option<&str>)
    ensures
        crate::json::read(borrowed) == crate::text::option_view(*text),
{
    match text {
        Some(inner) => Some(inner.as_str()),
        None => None,
    }
}

/// The account whose reset credit is redeemed before a request that no account can serve.
pub open spec fn is_reset_due(pool: PoolView, attempt: AttemptView, at: u64, idx: int) -> bool {
    &&& forall|i: int| !#[trigger] pool.eligible(i, attempt.first_question(at))
    &&& pool.reset_candidate(idx, attempt.first_question(at))
}

impl Attempt {
    /// An attempt that has tried no account.
    pub fn new(asked: Asked, pinned: Option<usize>) -> (attempt: Attempt)
        ensures
            attempt@ == (AttemptView {
                asked: asked@,
                pinned,
                tried: Seq::empty(),
                auth_failure: false,
                connect_failure: false,
            }),
            attempt@.wf(0),
    {
        let attempt = Attempt {
            asked,
            pinned,
            tried: Vec::new(),
            auth_failure: false,
            connect_failure: false,
        };
        assert(attempt@.tried =~= Seq::empty());
        attempt
    }

    /// The account whose reset credit is to be redeemed before the request is tried.
    pub fn reset_due(&self, pool: &Pool, at: u64) -> (idx: Option<usize>)
        requires
            pool.wf(),
        ensures
            match idx {
                Some(found) => is_reset_due(pool@, self@, at, found as int),
                None => forall|i: int| !#[trigger] is_reset_due(pool@, self@, at, i),
            },
    {
        let model = self.asked.model.as_str();
        let group = borrow(&self.asked.group);
        let ghost question = crate::select::first_ask(model, group, self.pinned, at);
        assert(question == self@.first_question(at));
        if pool.has_eligible_at(model, group, self.pinned, at) {
            return None;
        }
        pool.auto_reset_candidate(model, group, self.pinned, at)
    }

    /// The answer where no account served the request.
    pub fn conclude(&self, pool: &Pool, at: u64) -> (reply: Reply)
        requires
            pool.wf(),
        ensures
            concluded(pool@, self@, at, reply@),
    {
        if !pool.routing_healthy() {
            return routing_error();
        }
        let model = self.asked.model.as_str();
        let group = borrow(&self.asked.group);
        let mut reply = if pool.model_unavailable_at(model, group, self.pinned, at) {
            error(
                404,
                "model_unavailable",
                "No account eligible for this request supports the requested model",
            )
        } else if self.auth_failure {
            error(503, "credentials_unavailable", "No eligible account has working credentials")
        } else if self.connect_failure {
            error(503, "upstream_unavailable", "Cannot connect to an eligible upstream")
        } else {
            match pool.active_hold(at) {
                Some((until, reason)) => {
                    proof {
                        let i = choose|i: int|
                            {
                                &&& #[trigger] pool@.first_hold(i, at)
                                &&& until == pool@.state.accounts[i].hold_until
                                &&& reason@ == match pool@.state.accounts[i].last_error {
                                    Some(error) => error,
                                    None => Seq::empty(),
                                }
                            };
                        assert(pool@.on_hold(i, at));
                    }
                    held(reason.as_str())
                },
                None => pool_exhausted(pool.quota_reset_at(at)),
            }
        };
        assert(is_last_answer(pool@, self@, at, reply@));
        let ghost before = reply@;
        reply.retry_after = Some(pool.retry_seconds_at(at));
        assert(ReplyView { retry_after: None, ..reply@ } =~= before);
        reply
    }

    /// Chooses the next account, and takes it into use where nothing is to be stored for it.
    pub fn advance(&mut self, pool: &mut Pool, at: u64) -> (action: Action)
        requires
            old(pool).wf(),
            old(self)@.wf(old(pool)@.state.accounts.len()),
        ensures
            final(pool).wf(),
            final(pool)@.state.accounts.len() == old(pool)@.state.accounts.len(),
            final(self)@.wf(final(pool)@.state.accounts.len()),
            advanced(old(pool)@, old(self)@, at, final(pool)@, final(self)@, action@),
            action is Store || action is Authorize || action is Answer,
            action matches Action::Store(choice) ==> choice.record is Some && choice.idx
                < old(pool)@.state.accounts.len() && !old(self)@.tried.contains(choice.idx),
            action matches Action::Authorize(idx) ==> idx < old(pool)@.state.accounts.len(),
    {
        let model = self.asked.model.as_str();
        let group = borrow(&self.asked.group);
        let session = borrow(&self.asked.session);
        let tried = self.tried.as_slice();
        assert(crate::select::ask(model, group, self.pinned, tried, at) == self@.question(at));
        assert(crate::select::key_of(model, group, session) == self@.key());
        let choice = match pool.choose_at(model, group, session, self.pinned, tried, at) {
            Some(choice) => choice,
            None => {
                let reply = self.conclude(pool, at);
                return Action::Answer(reply);
            },
        };
        let idx: usize = choice.idx;
        let ghost before = pool@;
        proof {
            assert(before.chosen(idx as int, self@.key(), self@.question(at)));
            assert(before.eligible(idx as int, self@.question(at)));
        }
        if choice.record.is_some() {
            return Action::Store(choice);
        }
        let _ = pool.take(choice, true, at);
        self.tried.push(idx);
        proof {
            assert(pool@ =~= before.with_selection(idx as int, None, at));
            assert(self@ =~= old(self)@.trying(idx as int));
            lemma_tried(old(self)@, idx, before.state.accounts.len());
        }
        Action::Authorize(idx)
    }

    /// Takes a choice into use once its record was stored; where it was not, all routing stops.
    pub fn stored(&mut self, pool: &mut Pool, choice: Choice, stored: bool, at: u64) -> (action:
        Action)
        requires
            old(pool).wf(),
            old(self)@.wf(old(pool)@.state.accounts.len()),
            choice.record is Some,
            choice.idx < old(pool)@.state.accounts.len(),
            !old(self)@.tried.contains(choice.idx),
        ensures
            final(pool).wf(),
            final(pool)@.state.accounts.len() == old(pool)@.state.accounts.len(),
            final(self)@.wf(final(pool)@.state.accounts.len()),
            stored ==> {
                &&& action@ == ActionView::Authorize(choice.idx as int)
                &&& final(self)@ == old(self)@.trying(choice.idx as int)
                &&& final(pool)@ == (PoolView {
                    state: StateView {
                        routing: old(pool)@.state.routing.insert(choice.record->Some_0@, at),
                        ..old(pool)@.with_selection(choice.idx as int, None, at).state
                    },
                    ..old(pool)@
                })
            },
            !stored ==> {
                &&& action@ == ActionView::Answer(crate::reply::routing_failed())
                &&& final(self)@ == old(self)@
                &&& final(pool)@ == (PoolView {
                    state: StateView {
                        routing: crate::affinity::RoutingView {
                            failed: true,
                            ..old(pool)@.state.routing
                        },
                        ..old(pool)@.state
                    },
                    ..old(pool)@
                })
            },
    {
        let idx: usize = choice.idx;
        match pool.take(choice, stored, at) {
            Some(_) => {
                self.tried.push(idx);
                proof {
                    assert(self@ =~= old(self)@.trying(idx as int));
                    lemma_tried(old(self)@, idx, old(pool)@.state.accounts.len());
                }
                Action::Authorize(idx)
            },
            None => {
                let reply = self.conclude(pool, at);
                Action::Answer(reply)
            },
        }
    }

    /// Takes in whether an account has a token.
    pub fn authorized(&mut self, pool: &mut Pool, idx: usize, found: bool, at: u64) -> (action:
        Action)
        requires
            old(pool).wf(),
            old(self)@.wf(old(pool)@.state.accounts.len()),
            idx < old(pool)@.state.accounts.len(),
        ensures
            final(pool).wf(),
            final(pool)@.state.accounts.len() == old(pool)@.state.accounts.len(),
            final(self)@.wf(final(pool)@.state.accounts.len()),
            found ==> {
                &&& action@ == (ActionView::Send { idx: idx as int, renewed: false })
                &&& final(pool)@ == old(pool)@
                &&& final(self)@ == old(self)@
            },
            !found ==> advanced(
                old(pool)@.with_hold(
                    idx as int,
                    crate::affinity::later(at, CREDENTIAL_HOLD),
                    "credential_unavailable"@,
                ),
                old(self)@.without_token(),
                at,
                final(pool)@,
                final(self)@,
                action@,
            ),
    {
        if found {
            return Action::Send { idx, renewed: false };
        }
        self.auth_failure = true;
        pool.hold(idx, at.saturating_add(CREDENTIAL_HOLD), "credential_unavailable");
        assert(self@ =~= old(self)@.without_token());
        self.advance(pool, at)
    }

    /// Takes in whether an account has another token, where the last one was rejected.
    pub fn renewed(&mut self, pool: &mut Pool, idx: usize, found: bool, at: u64) -> (action: Action)
        requires
            old(pool).wf(),
            old(self)@.wf(old(pool)@.state.accounts.len()),
            idx < old(pool)@.state.accounts.len(),
        ensures
            final(pool).wf(),
            final(pool)@.state.accounts.len() == old(pool)@.state.accounts.len(),
            final(self)@.wf(final(pool)@.state.accounts.len()),
            found ==> {
                &&& action@ == (ActionView::Send { idx: idx as int, renewed: true })
                &&& final(pool)@ == old(pool)@
                &&& final(self)@ == old(self)@
            },
            !found ==> advanced(
                old(pool)@.with_hold(
                    idx as int,
                    crate::affinity::later(at, CREDENTIAL_HOLD),
                    "credential_refresh_failed"@,
                ),
                old(self)@.without_token(),
                at,
                final(pool)@,
                final(self)@,
                action@,
            ),
    {
        if found {
            return Action::Send { idx, renewed: true };
        }
        self.auth_failure = true;
        pool.hold(idx, at.saturating_add(CREDENTIAL_HOLD), "credential_refresh_failed");
        assert(self@ =~= old(self)@.without_token());
        self.advance(pool, at)
    }

    /// Takes in that an account could not be connected to: nothing was sent.
    pub fn unconnected(&mut self, pool: &mut Pool, idx: usize, at: u64) -> (action: Action)
        requires
            old(pool).wf(),
            old(self)@.wf(old(pool)@.state.accounts.len()),
            idx < old(pool)@.state.accounts.len(),
        ensures
            final(pool).wf(),
            final(pool)@.state.accounts.len() == old(pool)@.state.accounts.len(),
            final(self)@.wf(final(pool)@.state.accounts.len()),
            advanced(
                old(pool)@.with_hold(
                    idx as int,
                    crate::affinity::later(at, CONNECT_HOLD),
                    "connect_failed"@,
                ),
                old(self)@.without_connection(),
                at,
                final(pool)@,
                final(self)@,
                action@,
            ),
    {
        self.connect_failure = true;
        pool.hold(idx, at.saturating_add(CONNECT_HOLD), "connect_failed");
        assert(self@ =~= old(self)@.without_connection());
        self.advance(pool, at)
    }

    /// Takes in that sending failed in a way that leaves open whether the upstream took the request:
    /// it is answered so, and never sent again.
    pub fn failed(
        &self,
        pool: &mut Pool,
        idx: usize,
        failure: Failure,
        io_kind: Option<&str>,
        elapsed_ms: u64,
        at: u64,
    ) -> (action: Action)
        requires
            old(pool).wf(),
            idx < old(pool)@.state.accounts.len(),
        ensures
            final(pool).wf(),
            final(pool)@ == old(pool)@.recorded(
                idx as int,
                502,
                crate::reply::reason_of(failure),
                None,
                ""@,
                true,
                at,
            ),
            action@ == ActionView::Answer(
                crate::reply::plain(
                    502,
                    "upstream_outcome_unknown"@,
                    crate::reply::failure_text(
                        failure,
                        crate::json::read(io_kind),
                        elapsed_ms,
                        old(pool)@.config.settings.idle_timeout_seconds,
                    ),
                ),
            ),
    {
        let timeout: u64 = pool.config.idle_timeout_seconds;
        pool.record_stored(idx, 502, failure.reason(), None, "", true, at);
        Action::Answer(send_failure(failure, io_kind, elapsed_ms, timeout))
    }
}

proof fn lemma_tried(attempt: AttemptView, idx: usize, accounts: nat)
    requires
        attempt.wf(accounts),
        idx < accounts,
        !attempt.tried.contains(idx),
    ensures
        attempt.trying(idx as int).wf(accounts),
{
    let after = attempt.trying(idx as int);
    assert forall|k: int| 0 <= k < after.tried.len() implies #[trigger] after.tried[k]
        < accounts by {
        if k < attempt.tried.len() {
            assert(after.tried[k] == attempt.tried[k]);
        }
    }
    assert forall|a: int, b: int|
        0 <= a < after.tried.len() && 0 <= b < after.tried.len() && a != b implies after.tried[a]
        != after.tried[b] by {
        if a < attempt.tried.len() && b < attempt.tried.len() {
            assert(after.tried[a] == attempt.tried[a]);
            assert(after.tried[b] == attempt.tried[b]);
        } else if a < attempt.tried.len() {
            assert(attempt.tried.contains(attempt.tried[a]));
        } else {
            assert(attempt.tried.contains(attempt.tried[b]));
        }
    }
}

/// The pool once an answer told of the windows of an account. An account of the API also has the
/// windows that are told of the model.
pub open spec fn observed(
    pool: PoolView,
    idx: int,
    headers: Seq<HeaderView>,
    model: Seq<char>,
    at: u64,
    after: PoolView,
) -> bool {
    exists|found: Windows| #[trigger]
        crate::quota::header_windows(headers, found) && after == (
        if pool.config.accounts[idx].kind == Kind::Api {
            pool.with_windows(idx, found).with_windows(
                idx,
                crate::quota::api_windows(headers, model, at),
            )
        } else {
            pool.with_windows(idx, found)
        })
}

/// An answer that may say that the account has no access to the model.
pub open spec fn may_reject(model: Seq<char>, status: u16, headers: Seq<HeaderView>) -> bool {
    &&& model.len() > 0
    &&& status == 400 || status == 403 || status == 404
    &&& !crate::forward::streams(headers)
}

/// What is done next once an account answered, from the pool that the answer told of its windows.
pub open spec fn settled(
    pool: PoolView,
    attempt: AttemptView,
    idx: int,
    status: u16,
    headers: Seq<HeaderView>,
    at: u64,
    after: PoolView,
    next: AttemptView,
    action: ActionView,
) -> bool {
    if status == 429 {
        advanced(
            pool.with_hold(idx, crate::quota::retry_time(headers, at), "rate_limited"@),
            attempt,
            at,
            after,
            next,
            action,
        )
    } else if status == 401 {
        advanced(
            pool.with_hold(
                idx,
                crate::affinity::later(at, CREDENTIAL_HOLD),
                "authentication_failed"@,
            ),
            attempt.without_token(),
            at,
            after,
            next,
            action,
        )
    } else {
        &&& after == pool
        &&& next == attempt
        &&& action == (if may_reject(attempt.asked.model, status, headers) {
            ActionView::Read { idx, status }
        } else {
            ActionView::Forward(idx)
        })
    }
}

/// What an answer that was read says: the account has no access to the model.
pub open spec fn says_unavailable(value: Option<JsonView>, model: Seq<char>) -> bool {
    match value {
        Some(inner) => crate::models::rejects(inner, model),
        None => false,
    }
}

/// What is done next once an answer was read.
pub open spec fn judged(
    pool: PoolView,
    attempt: AttemptView,
    idx: int,
    status: u16,
    value: Option<JsonView>,
    stored: bool,
    at: u64,
    after: PoolView,
    next: AttemptView,
    action: ActionView,
) -> bool {
    let model = attempt.asked.model;
    if says_unavailable(value, model) {
        advanced(
            pool.with_rejection(idx, model, at).recorded(
                idx,
                status,
                "model_unavailable"@,
                None,
                model,
                true,
                at,
            ),
            attempt,
            at,
            after,
            next,
            action,
        )
    } else {
        &&& after == pool.recorded(idx, status, "upstream_rejected"@, value, model, stored, at)
        &&& next == attempt
        &&& action == ActionView::Pass
    }
}

impl Attempt {
    /// Takes in the answer of an account: its status and headers. A token that is rejected is
    /// renewed once.
    pub fn answered(
        &mut self,
        pool: &mut Pool,
        idx: usize,
        renewed: bool,
        status: u16,
        headers: &Vec<Header>,
        at: u64,
    ) -> (action: Action)
        requires
            old(pool).wf(),
            old(self)@.wf(old(pool)@.state.accounts.len()),
            idx < old(pool)@.state.accounts.len(),
        ensures
            final(pool).wf(),
            final(pool)@.state.accounts.len() == old(pool)@.state.accounts.len(),
            final(self)@.wf(final(pool)@.state.accounts.len()),
            status == 401 && !renewed ==> {
                &&& action@ == ActionView::Renew(idx as int)
                &&& final(pool)@ == old(pool)@
                &&& final(self)@ == old(self)@
            },
            !(status == 401 && !renewed) ==> exists|seen: PoolView| #[trigger]
                observed(
                    old(pool)@,
                    idx as int,
                    crate::headers::header_views(headers@),
                    old(self)@.asked.model,
                    at,
                    seen,
                ) && settled(
                    seen,
                    old(self)@,
                    idx as int,
                    status,
                    crate::headers::header_views(headers@),
                    at,
                    final(pool)@,
                    final(self)@,
                    action@,
                ),
    {
        if call_again(status, renewed) {
            return Action::Renew(idx);
        }
        let windows = crate::quota::headers(headers);
        pool.update_quotas(idx, &windows);
        assert(pool@ == old(pool)@.with_windows(idx as int, windows@));
        assert(pool@.config.accounts[idx as int] == pool.config.accounts@[idx as int]@);
        if pool.config.accounts[idx].kind == Kind::Api {
            let api = crate::quota::api_headers(headers, self.asked.model.as_str(), at);
            pool.update_quotas(idx, &api);
        }
        let ghost seen = pool@;
        assert(observed(
            old(pool)@,
            idx as int,
            crate::headers::header_views(headers@),
            self@.asked.model,
            at,
            seen,
        ));
        if status == 429 {
            pool.hold(idx, crate::quota::retry_at(headers, at), "rate_limited");
            return self.advance(pool, at);
        }
        if status == 401 {
            self.auth_failure = true;
            pool.hold(idx, at.saturating_add(CREDENTIAL_HOLD), "authentication_failed");
            assert(self@ =~= old(self)@.without_token());
            return self.advance(pool, at);
        }
        if self.asked.model.as_str().unicode_len() > 0 && (status == 400 || status == 403 || status
            == 404) && !is_event_stream(headers) {
            return Action::Read { idx, status };
        }
        Action::Forward(idx)
    }

    /// Takes in that the answer of an account could not be read.
    pub fn unread(&self, pool: &mut Pool, idx: usize, at: u64) -> (action: Action)
        requires
            old(pool).wf(),
            idx < old(pool)@.state.accounts.len(),
        ensures
            final(pool).wf(),
            final(pool)@ == old(pool)@.recorded(
                idx as int,
                502,
                "response_read_failed"@,
                None,
                ""@,
                true,
                at,
            ),
            action@ == ActionView::Answer(crate::reply::unread()),
    {
        pool.record_stored(idx, 502, "response_read_failed", None, "", true, at);
        Action::Answer(read_failed())
    }

    /// What is to be stored before an answer that was read is taken in, given its JSON value where
    /// it is one.
    pub fn plan_read(&self, pool: &Pool, idx: usize, value: Option<&Json>, at: u64) -> (record:
        Option<crate::affinity::Record>)
        requires
            pool.wf(),
            idx < pool@.state.accounts.len(),
        ensures
            crate::select::record_view(record) == if says_unavailable(
                crate::json::seen(value),
                self@.asked.model,
            ) {
                None
            } else {
                pool@.response_binding(idx as int, crate::json::seen(value), at)
            },
    {
        if let Some(inner) = value {
            if unavailable(inner, self.asked.model.as_str()) {
                return None;
            }
        }
        pool.response_record(idx, value, at)
    }

    /// Takes in an answer that was read, given its JSON value where it is one: a request whose model
    /// the account has no access to goes to the next account, any other is answered so. `stored`
    /// tells whether the journal takes the binding of the response.
    pub fn read(
        &mut self,
        pool: &mut Pool,
        idx: usize,
        status: u16,
        value: Option<&Json>,
        stored: bool,
        at: u64,
    ) -> (action: Action)
        requires
            old(pool).wf(),
            old(self)@.wf(old(pool)@.state.accounts.len()),
            idx < old(pool)@.state.accounts.len(),
        ensures
            final(pool).wf(),
            final(pool)@.state.accounts.len() == old(pool)@.state.accounts.len(),
            final(self)@.wf(final(pool)@.state.accounts.len()),
            judged(
                old(pool)@,
                old(self)@,
                idx as int,
                status,
                crate::json::seen(value),
                stored,
                at,
                final(pool)@,
                final(self)@,
                action@,
            ),
    {
        let rejected = match value {
            Some(inner) => unavailable(inner, self.asked.model.as_str()),
            None => false,
        };
        if rejected {
            pool.mark_model_unavailable_at(idx, self.asked.model.as_str(), at);
            pool.record_stored(
                idx,
                status,
                "model_unavailable",
                None,
                self.asked.model.as_str(),
                true,
                at,
            );
            return self.advance(pool, at);
        }
        pool.record_stored(
            idx,
            status,
            "upstream_rejected",
            value,
            self.asked.model.as_str(),
            stored,
            at,
        );
        Action::Pass
    }
}

impl Attempt {
    /// Takes in the bytes of an answer that was read.
    pub fn read_bytes(
        &mut self,
        pool: &mut Pool,
        idx: usize,
        status: u16,
        bytes: &[u8],
        stored: bool,
        at: u64,
    ) -> (action: Action)
        requires
            old(pool).wf(),
            old(self)@.wf(old(pool)@.state.accounts.len()),
            idx < old(pool)@.state.accounts.len(),
        ensures
            final(pool).wf(),
            final(pool)@.state.accounts.len() == old(pool)@.state.accounts.len(),
            final(self)@.wf(final(pool)@.state.accounts.len()),
            judged(
                old(pool)@,
                old(self)@,
                idx as int,
                status,
                crate::json::json_value(bytes@),
                stored,
                at,
                final(pool)@,
                final(self)@,
                action@,
            ),
    {
        let value = Json::parse(bytes);
        self.read(pool, idx, status, value.as_ref(), stored, at)
    }
}

/// Whether a call about an account is made once more, with a renewed token: it was rejected, and the
/// token was not renewed yet.
pub fn call_again(status: u16, renewed: bool) -> (again: bool)
    ensures
        again == (status == 401 && !renewed),
{
    status == 401 && !renewed
}

/// An account that is asked for its limits from time to time.
pub open spec fn is_probed(pool: PoolView, i: int) -> bool {
    pool.config.accounts[i].usage() is Some && !pool.state.accounts[i].disabled
}

/// An account whose token is renewed from time to time, even where nothing asks for it.
pub open spec fn is_renewed(pool: PoolView, i: int) -> bool {
    pool.config.accounts[i].credential is Managed && !pool.state.accounts[i].disabled
}

/// The positions before `count` that are wanted, in ascending order.
pub open spec fn positions(count: int, wanted: spec_fn(int) -> bool) -> Seq<int>
    decreases count,
{
    if count <= 0 {
        Seq::empty()
    } else if wanted(count - 1) {
        positions(count - 1, wanted).push(count - 1)
    } else {
        positions(count - 1, wanted)
    }
}

impl Pool {
    /// The accounts that are asked for their limits from time to time, in the order of the
    /// configuration.
    pub fn probed(&self) -> (found: Vec<usize>)
        requires
            self.wf(),
        ensures
            crate::forward::indices(found@) == positions(
                self@.config.accounts.len() as int,
                |i: int| is_probed(self@, i),
            ),
    {
        let ghost wanted = |i: int| is_probed(self@, i);
        let mut found: Vec<usize> = Vec::new();
        let mut i: usize = 0;
        assert(crate::forward::indices(found@) =~= positions(0, wanted));
        while i < self.config.accounts.len()
            invariant
                self.wf(),
                i <= self.config.accounts@.len(),
                wanted == (|i: int| is_probed(self@, i)),
                crate::forward::indices(found@) == positions(i as int, wanted),
            decreases self.config.accounts@.len() - i,
        {
            assert(self@.config.accounts[i as int] == self.config.accounts@[i as int]@);
            assert(self@.state.accounts[i as int] == self.state.accounts@[i as int]@);
            let ghost before = crate::forward::indices(found@);
            if self.config.accounts[i].usage().is_some() && !self.state.accounts[i].disabled {
                found.push(i);
                assert(crate::forward::indices(found@) =~= before.push(i as int));
            }
            i = i + 1;
        }
        found
    }

    /// The accounts whose tokens are renewed from time to time, in the order of the configuration.
    pub fn renewable(&self) -> (found: Vec<usize>)
        requires
            self.wf(),
        ensures
            crate::forward::indices(found@) == positions(
                self@.config.accounts.len() as int,
                |i: int| is_renewed(self@, i),
            ),
    {
        let ghost wanted = |i: int| is_renewed(self@, i);
        let mut found: Vec<usize> = Vec::new();
        let mut i: usize = 0;
        assert(crate::forward::indices(found@) =~= positions(0, wanted));
        while i < self.config.accounts.len()
            invariant
                self.wf(),
                i <= self.config.accounts@.len(),
                wanted == (|i: int| is_renewed(self@, i)),
                crate::forward::indices(found@) == positions(i as int, wanted),
            decreases self.config.accounts@.len() - i,
        {
            assert(self@.config.accounts[i as int] == self.config.accounts@[i as int]@);
            assert(self@.state.accounts[i as int] == self.state.accounts@[i as int]@);
            let ghost before = crate::forward::indices(found@);
            let managed = match &self.config.accounts[i].credential {
                crate::config::Credential::Managed { .. } => true,
                _ => false,
            };
            if managed && !self.state.accounts[i].disabled {
                found.push(i);
                assert(crate::forward::indices(found@) =~= before.push(i as int));
            }
            i = i + 1;
        }
        found
    }

    /// Takes in what the usage endpoint of an account answered.
    pub fn take_usage(&mut self, idx: usize, value: &Json, at: u64)
        requires
            old(self).wf(),
            idx < old(self)@.state.accounts.len(),
        ensures
            final(self).wf(),
            final(self)@ == old(self)@.with_account(
                idx as int,
                AccountStateView {
                    quotas: old(self)@.state.accounts[idx as int].quotas.union_prefer_right(
                        crate::quota::usage_windows(value@, at),
                    ),
                    reset_credits: match crate::quota::credits_of(value@) {
                        Some(count) => Some(count),
                        None => old(self)@.state.accounts[idx as int].reset_credits,
                    },
                    ..old(self)@.state.accounts[idx as int]
                },
            ),
    {
        let windows = crate::quota::usage(value, at);
        self.update_quotas(idx, &windows);
        self.set_reset_credits(idx, crate::quota::reset_credits(value));
        proof {
            let target = old(self)@.with_account(
                idx as int,
                AccountStateView {
                    quotas: old(self)@.state.accounts[idx as int].quotas.union_prefer_right(
                        crate::quota::usage_windows(value@, at),
                    ),
                    reset_credits: match crate::quota::credits_of(value@) {
                        Some(count) => Some(count),
                        None => old(self)@.state.accounts[idx as int].reset_credits,
                    },
                    ..old(self)@.state.accounts[idx as int]
                },
            );
            assert(self@.state.accounts =~= target.state.accounts);
            assert(self@ =~= target);
        }
    }
}

/// No account is tried twice for one request.
pub proof fn no_account_is_tried_twice(
    pool: PoolView,
    attempt: AttemptView,
    at: u64,
    after: PoolView,
    next: AttemptView,
    action: ActionView,
    idx: int,
)
    requires
        pool.wf(),
        attempt.wf(pool.state.accounts.len()),
        advanced(pool, attempt, at, after, next, action),
        action == ActionView::Authorize(idx) || (action matches ActionView::Store { idx: i, .. }
            && i == idx),
    ensures
        0 <= idx < pool.state.accounts.len(),
        !attempt.tried.contains(idx as usize),
{
    let i = choose|i: int| #[trigger]
        pool.chosen(i, attempt.key(), attempt.question(at)) && match crate::select::planned(
            pool,
            attempt.key(),
            i,
            at,
        ) {
            Some(record) => {
                &&& after == pool
                &&& next == attempt
                &&& action == ActionView::Store { idx: i, record }
            },
            None => {
                &&& after == pool.with_selection(i, None, at)
                &&& next == attempt.trying(i)
                &&& action == ActionView::Authorize(i)
            },
        };
    assert(pool.eligible(i, attempt.question(at)));
}

proof fn lemma_bounded(list: Seq<usize>, bound: nat)
    requires
        list.no_duplicates(),
        forall|k: int| 0 <= k < list.len() ==> #[trigger] list[k] < bound,
    ensures
        list.len() <= bound,
{
    let numbers = list.map_values(|i: usize| i as int);
    assert(numbers.no_duplicates()) by {
        assert forall|a: int, b: int|
            0 <= a < numbers.len() && 0 <= b < numbers.len() && a != b implies numbers[a]
            != numbers[b] by {
            assert(list[a] != list[b]);
        }
    }
    numbers.unique_seq_to_set();
    let range = vstd::set_lib::set_int_range(0, bound as int);
    vstd::set_lib::lemma_int_range(0, bound as int);
    assert(numbers.to_set().subset_of(range)) by {
        assert forall|n: int| numbers.to_set().contains(n) implies range.contains(n) by {
            let k = choose|k: int| 0 <= k < numbers.len() && numbers[k] == n;
            assert(list[k] < bound);
        }
    }
    vstd::set_lib::lemma_len_subset(numbers.to_set(), range);
}

/// An attempt ends: it tries no more accounts than there are.
pub proof fn attempts_are_bounded(attempt: AttemptView, accounts: nat)
    requires
        attempt.wf(accounts),
    ensures
        attempt.tried.len() <= accounts,
{
    lemma_bounded(attempt.tried, accounts);
}

/// A request that no account serves is told when to ask again, unless the routing has failed.
pub proof fn refused_request_is_told_when_to_ask_again(
    pool: PoolView,
    attempt: AttemptView,
    at: u64,
    reply: ReplyView,
)
    requires
        concluded(pool, attempt, at, reply),
    ensures
        pool.state.routing.failed || reply.retry_after is Some,
        pool.state.routing.failed ==> reply == crate::reply::routing_failed(),
{
}

/// A usage limit is reported only where nothing else kept the request from being served: no account
/// is on hold, and none lacked a token, a connection or access to the model.
pub proof fn usage_limit_is_the_last_resort(
    pool: PoolView,
    attempt: AttemptView,
    at: u64,
    reply: ReplyView,
)
    requires
        concluded(pool, attempt, at, reply),
        reply.kind == "usage_limit_reached"@,
    ensures
        !attempt.auth_failure,
        !attempt.connect_failure,
        forall|i: int| !#[trigger] pool.on_hold(i, at),
        !pool.model_closed(attempt.asked.model, attempt.asked.group, attempt.pinned, at),
{
    reveal_strlit("usage_limit_reached");
    reveal_strlit("routing_storage_unavailable");
    reveal_strlit("model_unavailable");
    reveal_strlit("credentials_unavailable");
    reveal_strlit("upstream_unavailable");
    reveal_strlit("rate_limited");
    assert("usage_limit_reached"@.len() == 19);
    assert("routing_storage_unavailable"@.len() == 27);
    assert("model_unavailable"@.len() == 17);
    assert("credentials_unavailable"@.len() == 23);
    assert("upstream_unavailable"@.len() == 20);
    assert("rate_limited"@.len() == 12);
}

/// A reset that the upstream did not send is never reported.
pub proof fn reported_reset_is_that_of_a_limit(
    pool: PoolView,
    attempt: AttemptView,
    at: u64,
    reply: ReplyView,
    time: u64,
)
    requires
        concluded(pool, attempt, at, reply),
        reply.resets_at == Some(time),
    ensures
        pool.quota_resets(at, time),
{
}

/// An account that failed is on hold from then on, for the reason of the failure.
pub proof fn failed_account_is_on_hold(
    pool: PoolView,
    idx: int,
    seconds: u64,
    reason: Seq<char>,
    at: u64,
)
    requires
        pool.wf(),
        0 <= idx < pool.state.accounts.len(),
        seconds > 0,
        at < u64::MAX,
    ensures
        ({
            let after = pool.with_hold(idx, crate::affinity::later(at, seconds), reason);
            &&& after.on_hold(idx, at) || after.state.accounts[idx].disabled
            &&& after.state.accounts[idx].last_error == Some(reason)
        }),
{
}

/// What one step of choosing an account leaves alone: the holds, the errors and the windows of every
/// account, and what went wrong before.
pub proof fn choosing_keeps_what_is_known(
    pool: PoolView,
    attempt: AttemptView,
    at: u64,
    after: PoolView,
    next: AttemptView,
    action: ActionView,
    i: int,
)
    requires
        pool.wf(),
        advanced(pool, attempt, at, after, next, action),
        0 <= i < pool.state.accounts.len(),
    ensures
        after.state.accounts.len() == pool.state.accounts.len(),
        after.state.accounts[i].hold_until == pool.state.accounts[i].hold_until,
        after.state.accounts[i].last_error == pool.state.accounts[i].last_error,
        after.state.accounts[i].errors == pool.state.accounts[i].errors,
        after.state.accounts[i].quotas == pool.state.accounts[i].quotas,
        after.state.accounts[i].unavailable_models == pool.state.accounts[i].unavailable_models,
        next.auth_failure == attempt.auth_failure,
        next.connect_failure == attempt.connect_failure,
        next.asked == attempt.asked,
        next.pinned == attempt.pinned,
{
    if !none_left(pool, attempt, at) {
        let k = choose|k: int| #[trigger]
            pool.chosen(k, attempt.key(), attempt.question(at)) && match crate::select::planned(
                pool,
                attempt.key(),
                k,
                at,
            ) {
                Some(record) => {
                    &&& after == pool
                    &&& next == attempt
                    &&& action == ActionView::Store { idx: k, record }
                },
                None => {
                    &&& after == pool.with_selection(k, None, at)
                    &&& next == attempt.trying(k)
                    &&& action == ActionView::Authorize(k)
                },
            };
        assert(pool.chosen(k, attempt.key(), attempt.question(at)));
    }
}

/// What the status of an answer does: 429 holds the account until it may be asked again, as rate
/// limited; 401 holds it for half a minute, as one whose credentials failed; any other answer is
/// handed on, unless it is a 400, 403 or 404 for a named model and no stream, which is read first.
pub proof fn answers_are_settled_by_their_status(
    pool: PoolView,
    attempt: AttemptView,
    idx: int,
    status: u16,
    headers: Seq<HeaderView>,
    at: u64,
    after: PoolView,
    next: AttemptView,
    action: ActionView,
)
    requires
        pool.wf(),
        0 <= idx < pool.state.accounts.len(),
        settled(pool, attempt, idx, status, headers, at, after, next, action),
        at + 30 <= u64::MAX,
    ensures
        ({
            let account = after.state.accounts[idx];
            &&& status == 429 ==> account.last_error == Some("rate_limited"@) && account.hold_until
                >= crate::quota::retry_time(headers, at)
            &&& status == 401 ==> account.last_error == Some("authentication_failed"@)
                && account.hold_until >= at + 30 && next.auth_failure
            &&& status != 429 && status != 401 ==> after == pool && next == attempt
            &&& (status == 400 || status == 403 || status == 404) && attempt.asked.model.len() > 0
                && !crate::forward::streams(headers) ==> action == (ActionView::Read {
                idx,
                status,
            })
            &&& status != 429 && status != 401 && !((status == 400 || status == 403 || status
                == 404) && attempt.asked.model.len() > 0 && !crate::forward::streams(headers))
                ==> action == ActionView::Forward(idx)
        }),
{
    if status == 429 {
        let held = pool.with_hold(idx, crate::quota::retry_time(headers, at), "rate_limited"@);
        lemma_held_pool(pool, idx, crate::quota::retry_time(headers, at), "rate_limited"@);
        choosing_keeps_what_is_known(held, attempt, at, after, next, action, idx);
    } else if status == 401 {
        let until = crate::affinity::later(at, CREDENTIAL_HOLD);
        let held = pool.with_hold(idx, until, "authentication_failed"@);
        lemma_held_pool(pool, idx, until, "authentication_failed"@);
        choosing_keeps_what_is_known(
            held,
            attempt.without_token(),
            at,
            after,
            next,
            action,
            idx,
        );
    }
}

proof fn lemma_held_pool(pool: PoolView, idx: int, until: u64, reason: Seq<char>)
    requires
        pool.wf(),
        0 <= idx < pool.state.accounts.len(),
    ensures
        pool.with_hold(idx, until, reason).wf(),
{
    let after = pool.with_hold(idx, until, reason);
    assert forall|i: int| 0 <= i < after.state.accounts.len() implies crate::pool::account_wf(
        #[trigger] after.state.accounts[i],
        after.config.accounts[i],
        after.config.settings.threshold_percent,
    ) by {
        assert(crate::pool::account_wf(
            pool.state.accounts[i],
            pool.config.accounts[i],
            pool.config.settings.threshold_percent,
        ));
    }
    assert forall|i: int| 0 <= i < after.state.accounts.len() implies (
    #[trigger] after.state.accounts[i]).selected <= after.state.sequence by {
        assert(pool.state.accounts[i].selected <= pool.state.sequence);
    }
}

/// What a request is told that no account can serve, the first of several: that its model is not to
/// be had, that no account has credentials, that none can be connected to, what the first hold to end
/// is for, or that all limits are used up.
pub proof fn refusals_tell_the_nearest_reason(
    pool: PoolView,
    attempt: AttemptView,
    at: u64,
    reply: ReplyView,
)
    requires
        concluded(pool, attempt, at, reply),
        !pool.state.routing.failed,
    ensures
        ({
            let closed = pool.model_closed(
                attempt.asked.model,
                attempt.asked.group,
                attempt.pinned,
                at,
            );
            let held = exists|i: int| pool.on_hold(i, at);
            &&& closed ==> reply.status == 404 && reply.code == "model_unavailable"@
            &&& !closed && attempt.auth_failure ==> reply.status == 503 && reply.code
                == "credentials_unavailable"@
            &&& !closed && !attempt.auth_failure && attempt.connect_failure ==> reply.status == 503
                && reply.code == "upstream_unavailable"@
            &&& !closed && !attempt.auth_failure && !attempt.connect_failure && !held
                ==> reply.status == 429 && reply.code == "pool_exhausted"@ && reply.kind
                == "usage_limit_reached"@
        }),
{
}

/// What a hold is told as: a rate limit with 429, credentials that failed with 503, and anything
/// else with 503 as an upstream that failed.
pub proof fn holds_are_told_by_their_reason(reason: Seq<char>)
    ensures
        ({
            let reply = crate::reply::on_hold(reason);
            let credentials = reason == "credential_unavailable"@ || reason
                == "credential_refresh_failed"@ || reason == "authentication_failed"@;
            &&& reason == "rate_limited"@ ==> reply.status == 429 && reply.code == "rate_limited"@
            &&& credentials ==> reply.status == 503 && reply.code == "credentials_unavailable"@
            &&& reason != "rate_limited"@ && !credentials ==> reply.status == 503 && reply.code
                == "upstream_unavailable"@
        }),
        CREDENTIAL_HOLD == 30,
        CONNECT_HOLD == 1,
{
    reveal_strlit("rate_limited");
    reveal_strlit("credential_unavailable");
    reveal_strlit("credential_refresh_failed");
    reveal_strlit("authentication_failed");
    assert("rate_limited"@.len() == 12 && "credential_unavailable"@.len() == 22
        && "credential_refresh_failed"@.len() == 25 && "authentication_failed"@.len() == 21);
}

/// An answer that was read and rejects the model is recorded as such and closes the model to the
/// account, without a usage; any other is recorded as rejected by the upstream and handed on.
pub proof fn read_answers_are_judged(
    pool: PoolView,
    attempt: AttemptView,
    idx: int,
    status: u16,
    value: Option<JsonView>,
    stored: bool,
    at: u64,
    after: PoolView,
    next: AttemptView,
    action: ActionView,
)
    requires
        pool.wf(),
        0 <= idx < pool.state.accounts.len(),
        judged(pool, attempt, idx, status, value, stored, at, after, next, action),
        value is None || !crate::models::rejects(value->Some_0, attempt.asked.model),
    ensures
        action == ActionView::Pass,
        next == attempt,
        after.state.accounts[idx].last_error == Some("upstream_rejected"@),
        after.state.recent.last().outcome == "upstream_rejected"@,
        after.state.recent.last().status == status,
{
    reveal_strlit("upstream_rejected");
    reveal_strlit("complete");
    assert("upstream_rejected"@.len() == 17 && "complete"@.len() == 8);
}

proof fn lemma_wanted(count: int, wanted: spec_fn(int) -> bool, i: int)
    ensures
        positions(count, wanted).contains(i) <==> 0 <= i < count && wanted(i),
        forall|k: int|
            0 <= k < positions(count, wanted).len() ==> #[trigger] positions(count, wanted)[k]
                < count,
        forall|k: int, l: int|
            0 <= k < l < positions(count, wanted).len() ==> #[trigger] positions(count, wanted)[k]
                < #[trigger] positions(count, wanted)[l],
    decreases count,
{
    if count > 0 {
        lemma_wanted(count - 1, wanted, i);
        let before = positions(count - 1, wanted);
        let all = positions(count, wanted);
        if wanted(count - 1) {
            assert(all == before.push(count - 1));
            assert(all[all.len() - 1] == count - 1);
            if before.contains(i) {
                assert(all[before.index_of(i)] == i);
            }
            if all.contains(i) && i != count - 1 {
                assert(before[all.index_of(i)] == i);
            }
        }
    }
}

/// Probed are all accounts that are on and have an address for their usage; renewed are all that are
/// on and have managed credentials; each once and in order.
pub proof fn background_work_reaches_its_accounts(pool: PoolView, i: int)
    requires
        pool.wf(),
    ensures
        ({
            let count = pool.state.accounts.len() as int;
            let probed = positions(count, |k: int| is_probed(pool, k));
            let renewed = positions(count, |k: int| is_renewed(pool, k));
            let on = 0 <= i < count && !pool.state.accounts[i].disabled;
            &&& probed.contains(i) <==> on && pool.config.accounts[i].usage() is Some
            &&& renewed.contains(i) <==> on && pool.config.accounts[i].credential is Managed
            &&& forall|k: int, l: int|
                0 <= k < l < probed.len() ==> #[trigger] probed[k] < #[trigger] probed[l]
        }),
{
    let count = pool.state.accounts.len() as int;
    lemma_wanted(count, |k: int| is_probed(pool, k), i);
    lemma_wanted(count, |k: int| is_renewed(pool, k), i);
}

/// A request is told apart by its session, its model and its group; one without a session is bound
/// to nothing. What was tried is not asked for again.
pub proof fn questions_carry_the_request(attempt: AttemptView, at: u64)
    ensures
        attempt.question(at).model == attempt.asked.model,
        attempt.question(at).group == attempt.asked.group,
        attempt.question(at).pinned == attempt.pinned,
        attempt.question(at).tried == attempt.tried,
        attempt.question(at).at == at,
        attempt.asked.session is None ==> attempt.key() is None,
        attempt.asked.session is Some ==> attempt.key() == Some(
            crate::identity::session_key(
                attempt.asked.model,
                attempt.asked.group,
                attempt.asked.session->Some_0,
            ),
        ),
{
}

/// An unasked redemption is due where no account can serve a request that has tried none, one account
/// alone is kept from it by its limits, and that one may redeem a credit unasked now.
pub proof fn redemptions_are_due_as_a_last_resort(
    pool: PoolView,
    attempt: AttemptView,
    at: u64,
    idx: int,
    i: int,
)
    ensures
        is_reset_due(pool, attempt, at, idx) ==> {
            let ask = attempt.first_question(at);
            &&& !pool.eligible(i, ask)
            &&& pool.candidate(idx, ask) && pool.limited(idx, ask.model, at)
            &&& pool.candidate(i, ask) && pool.limited(i, ask.model, at) ==> i == idx
            &&& pool.config.accounts[idx].auto_reset
            &&& pool.config.accounts[idx].has_reset_credits()
            &&& pool.state.accounts[idx].reset_retry_at <= at
            &&& pool.state.accounts[idx].reset_credits != Some(0i64)
        },
        attempt.first_question(at).tried.len() == 0,
        attempt.first_question(at).model == attempt.asked.model,
        attempt.first_question(at).group == attempt.asked.group,
        attempt.first_question(at).pinned == attempt.pinned,
        attempt.first_question(at).at == at,
{
    if is_reset_due(pool, attempt, at, idx) {
        assert(pool.only_limited(idx, attempt.first_question(at)));
        if pool.candidate(i, attempt.first_question(at)) && pool.limited(
            i,
            attempt.asked.model,
            at,
        ) {
            assert(pool.only_limited(i, attempt.first_question(at)));
        }
    }
}

/// The windows that headers tell take the place of those known before, and no other changes; those of
/// an API account come last, and no other account has them.
pub proof fn windows_are_observed(
    pool: PoolView,
    idx: int,
    headers: Seq<HeaderView>,
    model: Seq<char>,
    at: u64,
    after: PoolView,
    key: Seq<char>,
    i: int,
)
    requires
        0 <= idx < pool.state.accounts.len(),
        0 <= i < pool.state.accounts.len(),
        observed(pool, idx, headers, model, at, after),
    ensures
        ({
            let before = pool.state.accounts[idx].quotas;
            let now = after.state.accounts[idx].quotas;
            let api = crate::quota::api_windows(headers, model, at);
            let is_api = pool.config.accounts[idx].kind == Kind::Api;
            let told = exists|prefix: Seq<char>| #[trigger]
                crate::quota::supplies(headers, prefix, key);
            &&& is_api && api.contains_key(key) ==> now.contains_key(key) && now[key] == api[key]
            &&& told ==> now.contains_key(key)
            &&& !told && !(is_api && api.contains_key(key)) ==> (now.contains_key(key)
                <==> before.contains_key(key)) && (before.contains_key(key) ==> now[key]
                == before[key])
            &&& i != idx ==> after.state.accounts[i] == pool.state.accounts[i]
        }),
{
    let found = choose|found: Windows| #[trigger]
        crate::quota::header_windows(headers, found) && after == (
        if pool.config.accounts[idx].kind == Kind::Api {
            pool.with_windows(idx, found).with_windows(
                idx,
                crate::quota::api_windows(headers, model, at),
            )
        } else {
            pool.with_windows(idx, found)
        });
    assert(found.contains_key(key) <==> exists|prefix: Seq<char>| #[trigger]
        crate::quota::supplies(headers, prefix, key));
}

/// How the last refusals are worded.
pub proof fn last_refusals_are_worded(
    pool: PoolView,
    attempt: AttemptView,
    at: u64,
    reply: ReplyView,
)
    requires
        concluded(pool, attempt, at, reply),
        !pool.state.routing.failed,
    ensures
        ({
            let closed = pool.model_closed(
                attempt.asked.model,
                attempt.asked.group,
                attempt.pinned,
                at,
            );
            &&& closed ==> reply.message
                == "No account eligible for this request supports the requested model"@
            &&& !closed && !attempt.auth_failure && attempt.connect_failure ==> reply.message
                == "Cannot connect to an eligible upstream"@
        }),
{
}

} // verus!
