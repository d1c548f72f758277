//! What the pool remembers of an answered request: counters, token totals, what it cost, the account
//! that produced the response, and the latest outcomes.
use crate::affinity::Kind as RouteKind;
use crate::affinity::Plan;
use crate::affinity::Record;
use crate::affinity::RecordView;
use crate::config::Price;
use crate::cost::add_charge;
use crate::cost::Charge;
use crate::identity::hash_text;
use crate::json::Json;
use crate::json::JsonView;
use crate::now;
use crate::pool::AccountState;
use crate::pool::AccountStateView;
use crate::pool::Pool;
use crate::pool::PoolView;
use crate::pool::RequestLog;
use crate::pool::RequestLogView;
use crate::pool::StateView;
use crate::pool::RECENT_LIMIT;
use crate::text::owned;
use crate::text::same;
use vstd::prelude::*;

verus! {

/// The usage that a response reports.
pub open spec fn usage_of(response: Option<JsonView>) -> Option<JsonView> {
    match response {
        Some(value) => match value.member("usage"@) {
            Some(usage) if usage is Object => Some(usage),
            _ => None,
        },
        None => None,
    }
}

/// A number of tokens that a usage reports, zero where it reports none.
pub open spec fn tokens(usage: JsonView, name: Seq<char>) -> u64 {
    match usage.member_unsigned(name) {
        Some(count) => count,
        None => 0,
    }
}

/// The number of cached tokens that a usage reports, zero where it reports none.
pub open spec fn cached_tokens(usage: JsonView) -> u64 {
    match usage.inner("input_tokens_details"@, "cached_tokens"@) {
        Some(count) => match count.unsigned() {
            Some(number) => number,
            None => 0,
        },
        None => 0,
    }
}

/// The name of a response.
pub open spec fn response_id(response: Option<JsonView>) -> Option<Seq<char>> {
    match response {
        Some(value) => value.member_text("id"@),
        None => None,
    }
}

/// What a request is charged for, where its usage is known and its model has a price.
pub open spec fn charge_from(usage: Option<JsonView>, price: Option<Price>) -> Option<Charge> {
    match (usage, price) {
        (Some(found), Some(price)) => {
            let input = tokens(found, "input_tokens"@);
            let cached = if cached_tokens(found) < input {
                cached_tokens(found)
            } else {
                input
            };
            Some(
                Charge {
                    price,
                    input: (input - cached) as u64,
                    cached,
                    output: tokens(found, "output_tokens"@),
                },
            )
        },
        _ => None,
    }
}

/// What a request to an account of the pool is charged for.
pub open spec fn charge_of(pool: PoolView, response: Option<JsonView>, model: Seq<char>) -> Option<
    Charge,
> {
    charge_from(
        usage_of(response),
        if pool.config.settings.prices.contains_key(model) {
            Some(pool.config.settings.prices[model])
        } else {
            None
        },
    )
}

/// The account with one more request counted.
pub open spec fn with_outcome(
    account: AccountStateView,
    status: u16,
    outcome: Seq<char>,
    usage: Option<JsonView>,
    charge: Option<Charge>,
) -> AccountStateView {
    let complete = outcome == "complete"@;
    let counted = AccountStateView {
        requests: account.requests.wrapping_add(1),
        errors: if status >= 400 || !complete {
            account.errors.wrapping_add(1)
        } else {
            account.errors
        },
        last_error: if complete {
            None
        } else {
            Some(outcome)
        },
        ..account
    };
    match usage {
        Some(usage) => AccountStateView {
            estimated_cost_usd: match charge {
                Some(amount) => crate::cost::with_charge(account.estimated_cost_usd, amount),
                None => account.estimated_cost_usd,
            },
            unpriced_requests: match charge {
                Some(_) => account.unpriced_requests,
                None => account.unpriced_requests.wrapping_add(1),
            },
            input_tokens: account.input_tokens.wrapping_add(tokens(usage, "input_tokens"@)),
            output_tokens: account.output_tokens.wrapping_add(tokens(usage, "output_tokens"@)),
            cached_tokens: account.cached_tokens.wrapping_add(cached_tokens(usage)),
            ..counted
        },
        None => AccountStateView {
            unmetered_requests: account.unmetered_requests.wrapping_add(1),
            unpriced_requests: account.unpriced_requests.wrapping_add(1),
            ..counted
        },
    }
}

/// The latest outcomes with one more.
pub open spec fn with_log(recent: Seq<RequestLogView>, log: RequestLogView) -> Seq<RequestLogView> {
    if recent.len() == RECENT_LIMIT {
        recent.drop_first().push(log)
    } else {
        recent.push(log)
    }
}

impl PoolView {
    /// The pool once a request was answered, where `stored` tells whether the journal takes the
    /// binding of the response.
    pub open spec fn recorded(
        self,
        idx: int,
        status: u16,
        outcome: Seq<char>,
        response: Option<JsonView>,
        model: Seq<char>,
        stored: bool,
        at: u64,
    ) -> PoolView {
        let account = self.state.accounts[idx];
        PoolView {
            state: StateView {
                accounts: self.state.accounts.update(
                    idx,
                    with_outcome(
                        account,
                        status,
                        outcome,
                        usage_of(response),
                        charge_of(self, response, model),
                    ),
                ),
                routing: match response_id(response) {
                    Some(id) => self.state.routing.remember(
                        RouteKind::Response,
                        crate::identity::text_digest(id),
                        self.bindings[idx],
                        stored,
                        at,
                    ),
                    None => self.state.routing,
                },
                recent: with_log(
                    self.state.recent,
                    RequestLogView { at, account: account.name, status, outcome },
                ),
                ..self.state
            },
            ..self
        }
    }

    /// What is to be stored before a response counts as bound to its account.
    pub open spec fn response_binding(self, idx: int, response: Option<JsonView>, at: u64) -> Option<
        RecordView,
    > {
        match response_id(response) {
            Some(id) => {
                let key = crate::identity::text_digest(id);
                if self.state.routing.failed || self.state.routing.unchanged(
                    RouteKind::Response,
                    key,
                    self.bindings[idx],
                    at,
                ) {
                    None
                } else {
                    Some(
                        RecordView {
                            kind: RouteKind::Response,
                            key,
                            account: self.bindings[idx],
                            at,
                        },
                    )
                }
            },
            None => None,
        }
    }

    /// The records of a journal once a response was recorded.
    pub open spec fn journal_after(
        self,
        records: Seq<RecordView>,
        idx: int,
        response: Option<JsonView>,
        at: u64,
    ) -> Seq<RecordView> {
        match self.response_binding(idx, response, at) {
            Some(record) => records.push(record),
            None => records,
        }
    }
}

fn usage_in(response: Option<&Json>) -> (usage: Option<&Json>)
    ensures
        crate::json::seen(usage) == usage_of(crate::json::seen(response)),
{
    match response {
        Some(value) => match value.get("usage") {
            Some(usage) => if usage.is_object() {
                Some(usage)
            } else {
                None
            },
            None => None,
        },
        None => None,
    }
}

fn count(usage: &Json, name: &str) -> (number: u64)
    ensures
        number == tokens(usage@, name@),
{
    match usage.u64_at(name) {
        Some(number) => number,
        None => 0,
    }
}

fn cached_count(usage: &Json) -> (number: u64)
    ensures
        number == cached_tokens(usage@),
{
    match usage.pointer("input_tokens_details", "cached_tokens") {
        Some(value) => match value.as_u64() {
            Some(number) => number,
            None => 0,
        },
        None => 0,
    }
}

fn id_in(response: Option<&Json>) -> (id: Option<&str>)
    ensures
        crate::json::read(id) == response_id(crate::json::seen(response)),
{
    match response {
        Some(value) => value.text_at("id"),
        None => None,
    }
}

/// Counts one more request of an account.
fn add_outcome(
    account: &mut AccountState,
    status: u16,
    outcome: &str,
    response: Option<&Json>,
    price: Option<Price>,
)
    requires
        old(account).wf(),
        crate::double::is_plain(old(account)@.estimated_cost_usd),
        price matches Some(found) ==> crate::config::valid_price(found),
    ensures
        final(account).wf(),
        crate::double::is_plain(final(account)@.estimated_cost_usd),
        final(account)@ == with_outcome(
            old(account)@,
            status,
            outcome@,
            usage_of(crate::json::seen(response)),
            charge_from(usage_of(crate::json::seen(response)), price),
        ),
{
    let complete = same(outcome, "complete");
    account.requests = account.requests.wrapping_add(1);
    if status >= 400 || !complete {
        account.errors = account.errors.wrapping_add(1);
    }
    match usage_in(response) {
        Some(usage) => {
            let input: u64 = count(usage, "input_tokens");
            let output: u64 = count(usage, "output_tokens");
            let cached: u64 = cached_count(usage);
            match price {
                Some(price) => {
                    let shared: u64 = if cached < input {
                        cached
                    } else {
                        input
                    };
                    let charge = Charge { price, input: input - shared, cached: shared, output };
                    account.estimated_cost_usd = add_charge(account.estimated_cost_usd, charge);
                },
                None => {
                    account.unpriced_requests = account.unpriced_requests.wrapping_add(1);
                },
            }
            account.input_tokens = account.input_tokens.wrapping_add(input);
            account.output_tokens = account.output_tokens.wrapping_add(output);
            account.cached_tokens = account.cached_tokens.wrapping_add(cached);
        },
        None => {
            account.unmetered_requests = account.unmetered_requests.wrapping_add(1);
            account.unpriced_requests = account.unpriced_requests.wrapping_add(1);
        },
    }
    account.last_error =
    if complete {
        None
    } else {
        Some(owned(outcome))
    };
}

impl Pool {
    /// What is to be stored before a response counts as bound to its account.
    pub fn response_record(&self, idx: usize, response: Option<&Json>, at: u64) -> (record: Option<
        Record,
    >)
        requires
            self.wf(),
            idx < self@.state.accounts.len(),
        ensures
            crate::select::record_view(record) == self@.response_binding(
                idx as int,
                crate::json::seen(response),
                at,
            ),
    {
        assert(self@.bindings[idx as int] == self.bindings@[idx as int]@);
        match id_in(response) {
            Some(id) => match self.state.routing.plan(
                RouteKind::Response,
                hash_text(id),
                self.bindings[idx].clone(),
                at,
            ) {
                Plan::Write(record) => Some(record),
                _ => None,
            },
            None => None,
        }
    }

    /// Records an answered request at a given time; `stored` tells whether the journal takes the
    /// binding of the response. A response cannot be undone: where its binding is not stored,
    /// routing stops and later requests are refused.
    pub fn record_stored(
        &mut self,
        idx: usize,
        status: u16,
        outcome: &str,
        response: Option<&Json>,
        model: &str,
        stored: bool,
        at: u64,
    )
        requires
            old(self).wf(),
            idx < old(self)@.state.accounts.len(),
        ensures
            final(self).wf(),
            final(self)@ == old(self)@.recorded(
                idx as int,
                status,
                outcome@,
                crate::json::seen(response),
                model@,
                stored,
                at,
            ),
    {
        let ghost before = *self;
        let ghost target = self@.recorded(
            idx as int,
            status,
            outcome@,
            crate::json::seen(response),
            model@,
            stored,
            at,
        );
        assert(self@.state.accounts[idx as int] == self.state.accounts@[idx as int]@);
        assert(self@.bindings[idx as int] == self.bindings@[idx as int]@);
        if let Some(id) = id_in(response) {
            let key = hash_text(id);
            let binding = self.bindings[idx].clone();
            proof {
                crate::affinity::bindings_stay_bounded(
                    self@.state.routing,
                    RouteKind::Response,
                    key@,
                    binding@,
                    stored,
                    at,
                );
            }
            let _ = self.state.routing.remember_at(RouteKind::Response, key, binding, stored, at);
        }
        let price: Option<Price> = match self.config.prices.get(model) {
            Some(price) => Some(*price),
            None => None,
        };
        assert(self.state.accounts@[idx as int].wf());
        add_outcome(&mut self.state.accounts[idx], status, outcome, response, price);
        let name = self.state.accounts[idx].name.clone();
        let ghost logs = crate::pool::log_views(self.state.recent@);
        if self.state.recent.len() == RECENT_LIMIT {
            self.state.recent.remove(0);
            assert(crate::pool::log_views(self.state.recent@) =~= logs.drop_first());
        }
        let ghost shorter = crate::pool::log_views(self.state.recent@);
        let log = RequestLog { at, account: name, status, outcome: owned(outcome) };
        self.state.recent.push(log);
        proof {
            assert(crate::pool::log_views(self.state.recent@) =~= shorter.push(log@));
            assert(self@.state.recent =~= target.state.recent);
            let account = self.state.accounts@[idx as int]@;
            assert(account =~= target.state.accounts[idx as int]);
            assert(self@.state.accounts =~= target.state.accounts);
            assert(self@ =~= target);
            assert forall|i: int| 0 <= i < self@.state.accounts.len() implies
                crate::pool::account_wf(
                #[trigger] self@.state.accounts[i],
                self@.config.accounts[i],
                self@.config.settings.threshold_percent,
            ) by {
                assert(crate::pool::account_wf(
                    before@.state.accounts[i],
                    before@.config.accounts[i],
                    before@.config.settings.threshold_percent,
                ));
            }
            assert forall|i: int| 0 <= i < self.state.accounts@.len() implies (
            #[trigger] self.state.accounts@[i]).wf() by {
                assert(before.state.accounts@[i].wf());
            }
        }
    }

    /// Records an answered request in a pool that keeps its routing in memory.
    pub fn record_model(
        &mut self,
        idx: usize,
        status: u16,
        outcome: &str,
        response: Option<&Json>,
        model: &str,
    )
        requires
            old(self).wf(),
            idx < old(self)@.state.accounts.len(),
            !old(self)@.state.routing.persistent,
        ensures
            final(self).wf(),
            exists|at: u64|
                final(self)@ == #[trigger] old(self)@.recorded(
                    idx as int,
                    status,
                    outcome@,
                    crate::json::seen(response),
                    model@,
                    true,
                    at,
                ),
    {
        let at: u64 = now();
        self.record_stored(idx, status, outcome, response, model, true, at);
    }

    /// Records an answered request without a model in a pool that keeps its routing in memory.
    pub fn record(
        &mut self,
        idx: usize,
        status: u16,
        outcome: &str,
        response: Option<&Json>,
    )
        requires
            old(self).wf(),
            idx < old(self)@.state.accounts.len(),
            !old(self)@.state.routing.persistent,
        ensures
            final(self).wf(),
            exists|at: u64|
                final(self)@ == #[trigger] old(self)@.recorded(
                    idx as int,
                    status,
                    outcome@,
                    crate::json::seen(response),
                    ""@,
                    true,
                    at,
                ),
    {
        self.record_model(idx, status, outcome, response, "");
    }
}

/// Recording an answer binds the response to the account that produced it: a request that continues
/// it goes to that account, as long as no other account before it has the same binding.
pub proof fn response_stays_on_its_account(
    pool: PoolView,
    idx: int,
    status: u16,
    outcome: Seq<char>,
    response: JsonView,
    model: Seq<char>,
    at: u64,
)
    requires
        pool.wf(),
        0 <= idx < pool.state.accounts.len(),
        !pool.state.routing.failed,
        response.member_text("id"@) is Some,
        at < u64::MAX,
        crate::select::first_binding(pool.bindings, pool.bindings[idx]) == Some(idx),
    ensures
        pool.recorded(idx, status, outcome, Some(response), model, true, at).bound(
            RouteKind::Response,
            crate::identity::text_digest(response.member_text("id"@)->Some_0),
            at,
        ) == Some(idx),
{
    crate::affinity::binding_is_read_back(
        pool.state.routing,
        RouteKind::Response,
        crate::identity::text_digest(response.member_text("id"@)->Some_0),
        pool.bindings[idx],
        at,
    );
}

/// A recorded response leads to its account after a restart on the same journal: to the place that
/// an account of the same identity has then, wherever that is, and to none where no account has it.
/// It does so for as long as the binding lives. (The journal is taken to hold no more keys than are
/// kept, and a clock that has not gone back.)
pub proof fn response_survives_a_restart(
    pool: PoolView,
    idx: int,
    status: u16,
    outcome: Seq<char>,
    response: JsonView,
    model: Seq<char>,
    at: u64,
    records: Seq<RecordView>,
    lines: Seq<Seq<u8>>,
    tail: Seq<u8>,
    config: crate::config::ConfigView,
    now: u64,
)
    requires
        pool.wf(),
        0 <= idx < pool.state.accounts.len(),
        !pool.state.routing.failed,
        response.member_text("id"@) is Some,
        crate::journal::journaled(records, pool.state.routing),
        crate::journal::are_lines_of(
            lines,
            pool.journal_after(records, idx, Some(response), at),
        ),
        !tail.contains(crate::journal::NEWLINE),
        crate::journal::written(lines).len() + tail.len() <= crate::affinity::JOURNAL_LIMIT,
        crate::journal::keys_of(
            pool.journal_after(records, idx, Some(response), at),
            RouteKind::Session,
        ).len() <= crate::affinity::LIMIT,
        crate::journal::keys_of(
            pool.journal_after(records, idx, Some(response), at),
            RouteKind::Response,
        ).len() <= crate::affinity::LIMIT,
        ({
            let routing = pool.recorded(
                idx,
                status,
                outcome,
                Some(response),
                model,
                true,
                at,
            ).state.routing;
            let key = crate::identity::text_digest(response.member_text("id"@)->Some_0);
            &&& routing.get(RouteKind::Response, key, now) is Some
            &&& routing.responses[key].at <= now
        }),
    ensures
        crate::journal::replayed(crate::journal::written(lines) + tail, now) matches Ok(routing) && {
            let restarted = crate::pool::new_pool(config, routing);
            let key = crate::identity::text_digest(response.member_text("id"@)->Some_0);
            let found = restarted.bound(RouteKind::Response, key, now);
            &&& forall|j: int|
                0 <= j < config.accounts.len() && crate::identity::identity_text(
                    #[trigger] config.accounts[j],
                ) == crate::identity::identity_text(pool.config.accounts[idx]) && (forall|k: int|
                    0 <= k < j ==> crate::identity::binding_of(#[trigger] config.accounts[k])
                        != pool.bindings[idx]) ==> found == Some(j)
            &&& (forall|k: int|
                0 <= k < config.accounts.len() ==> crate::identity::binding_of(
                    #[trigger] config.accounts[k],
                ) != pool.bindings[idx]) ==> found is None
        },
{
    let key = crate::identity::text_digest(response.member_text("id"@)->Some_0);
    let after = pool.recorded(idx, status, outcome, Some(response), model, true, at).state.routing;
    let all = crate::journal::recorded(
        records,
        pool.state.routing,
        RouteKind::Response,
        key,
        pool.bindings[idx],
        at,
    );
    crate::journal::journal_keeps_up(
        records,
        pool.state.routing,
        RouteKind::Response,
        key,
        pool.bindings[idx],
        at,
    );
    crate::journal::bindings_survive_a_restart(
        after,
        all,
        lines,
        tail,
        RouteKind::Response,
        key,
        now,
    );
    let routing = crate::journal::replayed(crate::journal::written(lines) + tail, now)->Ok_0;
    let restarted = crate::pool::new_pool(config, routing);
    let binding = pool.bindings[idx];
    assert(routing.get(RouteKind::Response, key, now) == Some(binding));
    assert forall|j: int|
        0 <= j < config.accounts.len() && crate::identity::identity_text(
            #[trigger] config.accounts[j],
        ) == crate::identity::identity_text(pool.config.accounts[idx]) && (forall|k: int|
            0 <= k < j ==> crate::identity::binding_of(#[trigger] config.accounts[k])
                != pool.bindings[idx]) implies restarted.bound(RouteKind::Response, key, now)
        == Some(j) by {
        assert(restarted.bindings[j] == binding);
        assert forall|k: int| 0 <= k < j implies #[trigger] restarted.bindings[k] != binding by {
            assert(restarted.bindings[k] == crate::identity::binding_of(config.accounts[k]));
        }
        crate::select::lemma_first_binding(restarted.bindings, binding, j);
    }
    if forall|k: int|
        0 <= k < config.accounts.len() ==> crate::identity::binding_of(#[trigger] config.accounts[k])
            != pool.bindings[idx] {
        assert forall|k: int| 0 <= k < restarted.bindings.len() implies #[trigger]
            restarted.bindings[k] != binding by {
            assert(restarted.bindings[k] == crate::identity::binding_of(config.accounts[k]));
        }
        crate::select::lemma_no_binding(restarted.bindings, binding);
    }
}

/// No more outcomes are remembered than there may be, and the newest is always among them.
pub proof fn outcomes_stay_bounded(
    pool: PoolView,
    idx: int,
    status: u16,
    outcome: Seq<char>,
    response: Option<JsonView>,
    model: Seq<char>,
    stored: bool,
    at: u64,
)
    requires
        pool.wf(),
        0 <= idx < pool.state.accounts.len(),
    ensures
        pool.recorded(idx, status, outcome, response, model, stored, at).state.recent.len()
            <= RECENT_LIMIT,
        pool.recorded(idx, status, outcome, response, model, stored, at).state.recent.last() == (
        RequestLogView { at, account: pool.state.accounts[idx].name, status, outcome }),
{
}

/// Recording an answer changes no other account, no window and no hold.
pub proof fn recording_touches_one_account(
    pool: PoolView,
    idx: int,
    status: u16,
    outcome: Seq<char>,
    response: Option<JsonView>,
    model: Seq<char>,
    stored: bool,
    at: u64,
    i: int,
)
    requires
        pool.wf(),
        0 <= idx < pool.state.accounts.len(),
        0 <= i < pool.state.accounts.len(),
    ensures
        ({
            let after = pool.recorded(idx, status, outcome, response, model, stored, at);
            &&& i != idx ==> after.state.accounts[i] == pool.state.accounts[i]
            &&& after.state.accounts[i].quotas == pool.state.accounts[i].quotas
            &&& after.state.accounts[i].hold_until == pool.state.accounts[i].hold_until
            &&& after.state.accounts[i].in_flight == pool.state.accounts[i].in_flight
            &&& after.state.accounts[i].disabled == pool.state.accounts[i].disabled
        }),
{
}

/// What is charged for input, cached and not, is the input that was used: cached input counts once.
pub proof fn cached_input_counts_once(
    pool: PoolView,
    response: JsonView,
    model: Seq<char>,
    usage: JsonView,
)
    requires
        usage_of(Some(response)) == Some(usage),
        pool.config.settings.prices.contains_key(model),
    ensures
        charge_of(pool, Some(response), model) matches Some(charge) && charge.input + charge.cached
            == tokens(usage, "input_tokens"@),
{
}

/// The usage that a response reports: its `usage`, where that is an object.
pub open spec fn reports_usage(response: Option<JsonView>, usage: JsonView) -> bool {
    &&& response is Some
    &&& response->Some_0.member("usage"@) == Some(usage)
    &&& usage is Object
}

/// How many tokens a response reports under a name.
pub open spec fn reported(response: Option<JsonView>, name: Seq<char>) -> u64 {
    match response {
        Some(value) => match value.member("usage"@) {
            Some(usage) if usage is Object => match usage.member_unsigned(name) {
                Some(count) => count,
                None => 0,
            },
            _ => 0,
        },
        None => 0,
    }
}

/// How many of its input tokens a response reports as cached.
pub open spec fn reported_cached(response: Option<JsonView>) -> u64 {
    match response {
        Some(value) => match value.member("usage"@) {
            Some(usage) if usage is Object => match usage.member("input_tokens_details"@) {
                Some(details) => match details.member_unsigned("cached_tokens"@) {
                    Some(count) => count,
                    None => 0,
                },
                None => 0,
            },
            _ => 0,
        },
        None => 0,
    }
}

/// An answer raises the totals of its account by exactly what it reports: the input tokens, the
/// output tokens and the cached tokens, and it counts as one request.
pub proof fn answer_adds_what_it_reports(
    pool: PoolView,
    idx: int,
    status: u16,
    outcome: Seq<char>,
    response: Option<JsonView>,
    model: Seq<char>,
    stored: bool,
    at: u64,
)
    requires
        0 <= idx < pool.state.accounts.len(),
    ensures
        ({
            let before = pool.state.accounts[idx];
            let after = pool.recorded(
                idx,
                status,
                outcome,
                response,
                model,
                stored,
                at,
            ).state.accounts[idx];
            let input = before.input_tokens + reported(response, "input_tokens"@);
            let output = before.output_tokens + reported(response, "output_tokens"@);
            let cached = before.cached_tokens + reported_cached(response);
            &&& input <= u64::MAX ==> after.input_tokens == input
            &&& output <= u64::MAX ==> after.output_tokens == output
            &&& cached <= u64::MAX ==> after.cached_tokens == cached
            &&& before.requests < u64::MAX ==> after.requests == before.requests + 1
        }),
{
    crate::json::members_are_read_as_what_they_are(
        match response {
            Some(value) => match value.member("usage"@) {
                Some(usage) => usage,
                None => value,
            },
            None => JsonView::Null,
        },
        "input_tokens_details"@,
    );
}

/// What is known of an answer when it is recorded.
pub struct AnswerView {
    pub status: u16,
    pub outcome: Seq<char>,
    pub response: Option<JsonView>,
    pub model: Seq<char>,
    pub stored: bool,
    pub at: u64,
}

/// A pool after several answers of one account.
pub open spec fn after_answers(pool: PoolView, idx: int, answers: Seq<AnswerView>) -> PoolView
    decreases answers.len(),
{
    if answers.len() == 0 {
        pool
    } else {
        let answer = answers.last();
        after_answers(pool, idx, answers.drop_last()).recorded(
            idx,
            answer.status,
            answer.outcome,
            answer.response,
            answer.model,
            answer.stored,
            answer.at,
        )
    }
}

/// How many tokens several answers report under a name, together.
pub open spec fn total_reported(answers: Seq<AnswerView>, name: Seq<char>) -> nat
    decreases answers.len(),
{
    if answers.len() == 0 {
        0
    } else {
        total_reported(answers.drop_last(), name) + reported(answers.last().response, name) as nat
    }
}

/// How many cached tokens several answers report, together.
pub open spec fn total_cached(answers: Seq<AnswerView>) -> nat
    decreases answers.len(),
{
    if answers.len() == 0 {
        0
    } else {
        total_cached(answers.drop_last()) + reported_cached(answers.last().response) as nat
    }
}

/// How many of several answers failed: with a status of 400 or more, or without completing.
pub open spec fn total_failed(answers: Seq<AnswerView>) -> nat
    decreases answers.len(),
{
    if answers.len() == 0 {
        0
    } else {
        total_failed(answers.drop_last()) + if answers.last().status >= 400
            || answers.last().outcome != "complete"@ {
            1nat
        } else {
            0
        }
    }
}

/// Over any run of answers the totals of an account grow by the sums of what the answers report, its
/// requests by their number, and its errors by the number of those that failed.
pub proof fn totals_are_sums(pool: PoolView, idx: int, answers: Seq<AnswerView>)
    requires
        0 <= idx < pool.state.accounts.len(),
    ensures
        ({
            let before = pool.state.accounts[idx];
            let after = after_answers(pool, idx, answers).state.accounts[idx];
            let input = before.input_tokens + total_reported(answers, "input_tokens"@);
            let output = before.output_tokens + total_reported(answers, "output_tokens"@);
            let cached = before.cached_tokens + total_cached(answers);
            let requests = before.requests + answers.len();
            let errors = before.errors + total_failed(answers);
            &&& input <= u64::MAX ==> after.input_tokens == input
            &&& output <= u64::MAX ==> after.output_tokens == output
            &&& cached <= u64::MAX ==> after.cached_tokens == cached
            &&& requests <= u64::MAX ==> after.requests == requests
            &&& errors <= u64::MAX ==> after.errors == errors
        }),
        after_answers(pool, idx, answers).state.accounts.len() == pool.state.accounts.len(),
    decreases answers.len(),
{
    if answers.len() > 0 {
        let rest = answers.drop_last();
        let answer = answers.last();
        totals_are_sums(pool, idx, rest);
        answer_adds_what_it_reports(
            after_answers(pool, idx, rest),
            idx,
            answer.status,
            answer.outcome,
            answer.response,
            answer.model,
            answer.stored,
            answer.at,
        );
    }
}

/// An answer with a status of 400 or more, or one that did not complete, counts as an error, and no
/// other does; what went wrong is kept until an answer completes. One without a usage is unmetered;
/// one without a usage or without a price for its model is unpriced and adds no cost.
pub proof fn answers_are_counted_by_their_kind(
    pool: PoolView,
    idx: int,
    status: u16,
    outcome: Seq<char>,
    response: Option<JsonView>,
    model: Seq<char>,
    stored: bool,
    at: u64,
)
    requires
        0 <= idx < pool.state.accounts.len(),
        pool.state.accounts[idx].errors < u64::MAX,
        pool.state.accounts[idx].unmetered_requests < u64::MAX,
        pool.state.accounts[idx].unpriced_requests < u64::MAX,
    ensures
        ({
            let before = pool.state.accounts[idx];
            let after = pool.recorded(
                idx,
                status,
                outcome,
                response,
                model,
                stored,
                at,
            ).state.accounts[idx];
            let metered = exists|usage: JsonView| #[trigger] reports_usage(response, usage);
            let priced = metered && pool.config.settings.prices.contains_key(model);
            let failed = status >= 400 || outcome != "complete"@;
            &&& after.errors == before.errors + if failed {
                1int
            } else {
                0
            }
            &&& after.last_error == if outcome == "complete"@ {
                None
            } else {
                Some(outcome)
            }
            &&& after.unmetered_requests == before.unmetered_requests + if metered {
                0int
            } else {
                1
            }
            &&& after.unpriced_requests == before.unpriced_requests + if priced {
                0int
            } else {
                1
            }
            &&& !priced ==> after.estimated_cost_usd == before.estimated_cost_usd
        }),
{
    if usage_of(response) is Some {
        assert(reports_usage(response, usage_of(response)->Some_0));
    }
}

/// A priced answer costs what its model's prices say of what it reports: its cached input, at most
/// all of its input, at the price of cached input, the rest of its input at the price of input, and
/// its output at the price of output.
pub proof fn answer_is_charged_at_the_prices_of_its_model(
    pool: PoolView,
    idx: int,
    status: u16,
    outcome: Seq<char>,
    response: Option<JsonView>,
    model: Seq<char>,
    stored: bool,
    at: u64,
    usage: JsonView,
    charge: Charge,
)
    requires
        0 <= idx < pool.state.accounts.len(),
        reports_usage(response, usage),
        pool.config.settings.prices.contains_key(model),
        charge.price == pool.config.settings.prices[model],
        charge.output == reported(response, "output_tokens"@),
        charge.input + charge.cached == reported(response, "input_tokens"@),
        charge.cached <= reported_cached(response),
        charge.cached < reported_cached(response) ==> charge.input == 0,
    ensures
        pool.recorded(idx, status, outcome, response, model, stored, at).state.accounts[idx]
            .estimated_cost_usd == crate::cost::with_charge(
            pool.state.accounts[idx].estimated_cost_usd,
            charge,
        ),
{
    crate::json::members_are_read_as_what_they_are(usage, "input_tokens_details"@);
    assert(usage_of(response) == Some(usage));
    assert(cached_tokens(usage) == reported_cached(response));
    assert(charge_of(pool, response, model) == Some(charge));
}

/// The last hundred outcomes are kept, in the order in which they came.
pub proof fn last_hundred_outcomes_are_kept(
    pool: PoolView,
    idx: int,
    status: u16,
    outcome: Seq<char>,
    response: Option<JsonView>,
    model: Seq<char>,
    stored: bool,
    at: u64,
    k: int,
)
    requires
        pool.wf(),
        0 <= idx < pool.state.accounts.len(),
        0 <= k < pool.state.recent.len(),
        k < 99,
    ensures
        ({
            let before = pool.state.recent;
            let after = pool.recorded(
                idx,
                status,
                outcome,
                response,
                model,
                stored,
                at,
            ).state.recent;
            &&& after.len() == if before.len() < 100 {
                before.len() + 1
            } else {
                100
            }
            &&& after[after.len() - 2 - k] == before[before.len() - 1 - k]
        }),
{
}

} // verus!
