//! The state of a pool: what is known of each account, and what has been answered.
use crate::affinity::Routing;
use crate::affinity::RoutingView;
use crate::config::Account;
use crate::config::Config;
use crate::config::ConfigError;
use crate::config::ConfigView;
use crate::identity::account_binding;
use crate::level::Level;
use crate::now;
use crate::quota::Quotas;
use crate::quota::Windows;
use crate::table::Table;
use crate::text::byte_len;
use crate::text::option_same;
use crate::text::owned;
use crate::text::same;
use vstd::prelude::*;

verus! {

/// For how many seconds an account is not asked for a model that it rejected.
pub const MODEL_RETRY_SECONDS: u64 = 300;

/// How many rejected models are remembered of an account.
pub const MODEL_CACHE_LIMIT: usize = 256;

/// How many answers are remembered.
pub const RECENT_LIMIT: usize = 100;

/// What is known of an account.
pub struct AccountState {
    pub name: String,
    pub disabled: bool,
    pub hold_until: u64,
    pub in_flight: u64,
    pub requests: u64,
    pub errors: u64,
    pub input_tokens: u64,
    pub cached_tokens: u64,
    pub output_tokens: u64,
    pub unmetered_requests: u64,
    pub estimated_cost_usd: Level,
    pub unpriced_requests: u64,
    pub quotas: Quotas,
    pub unavailable_models: Table<u64>,
    pub last_error: Option<String>,
    pub last_probe: Option<u64>,
    pub last_probe_ok: Option<bool>,
    pub threshold_percent: Level,
    pub reset_credits: Option<i64>,
    pub resets: u64,
    pub last_reset: Option<u64>,
    pub reset_retry_at: u64,
    pub selected: u64,
    pub removed: bool,
}

/// What the state of an account holds.
#[verifier::ext_equal]
pub struct AccountStateView {
    pub name: Seq<char>,
    pub disabled: bool,
    pub hold_until: u64,
    pub in_flight: u64,
    pub requests: u64,
    pub errors: u64,
    pub input_tokens: u64,
    pub cached_tokens: u64,
    pub output_tokens: u64,
    pub unmetered_requests: u64,
    pub estimated_cost_usd: Level,
    pub unpriced_requests: u64,
    pub quotas: Windows,
    pub unavailable_models: Map<Seq<char>, u64>,
    pub last_error: Option<Seq<char>>,
    pub last_probe: Option<u64>,
    pub last_probe_ok: Option<bool>,
    pub threshold_percent: Level,
    pub reset_credits: Option<i64>,
    pub resets: u64,
    pub last_reset: Option<u64>,
    pub reset_retry_at: u64,
    pub selected: u64,
    pub removed: bool,
}

impl View for AccountState {
    type V = AccountStateView;

    open spec fn view(&self) -> AccountStateView {
        AccountStateView {
            name: self.name@,
            disabled: self.disabled,
            hold_until: self.hold_until,
            in_flight: self.in_flight,
            requests: self.requests,
            errors: self.errors,
            input_tokens: self.input_tokens,
            cached_tokens: self.cached_tokens,
            output_tokens: self.output_tokens,
            unmetered_requests: self.unmetered_requests,
            estimated_cost_usd: self.estimated_cost_usd,
            unpriced_requests: self.unpriced_requests,
            quotas: self.quotas@,
            unavailable_models: self.unavailable_models@,
            last_error: crate::text::option_view(self.last_error),
            last_probe: self.last_probe,
            last_probe_ok: self.last_probe_ok,
            threshold_percent: self.threshold_percent,
            reset_credits: self.reset_credits,
            resets: self.resets,
            last_reset: self.last_reset,
            reset_retry_at: self.reset_retry_at,
            selected: self.selected,
            removed: self.removed,
        }
    }
}

impl AccountState {
    /// The tables of the account are in order.
    pub open spec fn wf(&self) -> bool {
        self.quotas.wf() && self.unavailable_models.wf()
    }
}

/// An account of which nothing is known yet.
pub open spec fn new_account(
    account: crate::config::AccountView,
    default: Level,
) -> AccountStateView {
    AccountStateView {
        name: account.name,
        disabled: account.disabled,
        hold_until: 0,
        in_flight: 0,
        requests: 0,
        errors: 0,
        input_tokens: 0,
        cached_tokens: 0,
        output_tokens: 0,
        unmetered_requests: 0,
        estimated_cost_usd: Level { bits: 0 },
        unpriced_requests: 0,
        quotas: Map::empty(),
        unavailable_models: Map::empty(),
        last_error: None,
        last_probe: None,
        last_probe_ok: None,
        threshold_percent: account.threshold(default),
        reset_credits: None,
        resets: 0,
        last_reset: None,
        reset_retry_at: 0,
        selected: 0,
        removed: false,
    }
}

/// The outcome of a request.
pub struct RequestLog {
    pub at: u64,
    pub account: String,
    pub status: u16,
    pub outcome: String,
}

/// What the outcome of a request holds.
pub struct RequestLogView {
    pub at: u64,
    pub account: Seq<char>,
    pub status: u16,
    pub outcome: Seq<char>,
}

impl View for RequestLog {
    type V = RequestLogView;

    open spec fn view(&self) -> RequestLogView {
        RequestLogView {
            at: self.at,
            account: self.account@,
            status: self.status,
            outcome: self.outcome@,
        }
    }
}

/// The state of a pool.
pub struct State {
    pub accounts: Vec<AccountState>,
    pub routing: Routing,
    pub sequence: u64,
    pub recent: Vec<RequestLog>,
}

/// What the state of a pool holds.
#[verifier::ext_equal]
pub struct StateView {
    pub accounts: Seq<AccountStateView>,
    pub routing: RoutingView,
    pub sequence: u64,
    pub recent: Seq<RequestLogView>,
}

/// What the states of accounts hold.
pub open spec fn state_views(accounts: Seq<AccountState>) -> Seq<AccountStateView> {
    accounts.map_values(|account: AccountState| account@)
}

/// What outcomes hold.
pub open spec fn log_views(logs: Seq<RequestLog>) -> Seq<RequestLogView> {
    logs.map_values(|log: RequestLog| log@)
}

impl View for State {
    type V = StateView;

    open spec fn view(&self) -> StateView {
        StateView {
            accounts: state_views(self.accounts@),
            routing: self.routing@,
            sequence: self.sequence,
            recent: log_views(self.recent@),
        }
    }
}

/// A pool of accounts.
pub struct Pool {
    pub config: Config,
    pub bindings: Vec<String>,
    pub state: State,
}

/// What a pool holds.
#[verifier::ext_equal]
pub struct PoolView {
    pub config: ConfigView,
    pub bindings: Seq<Seq<char>>,
    pub state: StateView,
}

impl View for Pool {
    type V = PoolView;

    open spec fn view(&self) -> PoolView {
        PoolView {
            config: self.config@,
            bindings: crate::text::views(self.bindings@),
            state: self.state@,
        }
    }
}

impl PoolView {
    /// One state and one binding for each account, in the order of the configuration, prices that
    /// are numbers, no more remembered than there may be, and no account selected with a number
    /// that was not given out yet.
    pub open spec fn wf(self) -> bool {
        &&& self.state.accounts.len() == self.config.accounts.len()
        &&& self.bindings.len() == self.config.accounts.len()
        &&& forall|i: int|
            0 <= i < self.bindings.len() ==> #[trigger] self.bindings[i]
                == crate::identity::binding_of(self.config.accounts[i])
        &&& forall|i: int|
            0 <= i < self.state.accounts.len() ==> account_wf(
                #[trigger] self.state.accounts[i],
                self.config.accounts[i],
                self.config.settings.threshold_percent,
            )
        &&& forall|model: Seq<char>|
            self.config.settings.prices.contains_key(model) ==> crate::config::valid_price(
                #[trigger] self.config.settings.prices[model],
            )
        &&& self.state.routing.wf()
        &&& self.state.recent.len() <= RECENT_LIMIT
        &&& forall|i: int|
            0 <= i < self.state.accounts.len() ==> (#[trigger] self.state.accounts[i]).selected
                <= self.state.sequence
    }

    /// The pool with one account changed.
    pub open spec fn with_account(self, idx: int, account: AccountStateView) -> PoolView {
        PoolView {
            state: StateView {
                accounts: self.state.accounts.update(idx, account),
                ..self.state
            },
            ..self
        }
    }
}

/// The state of an account agrees with its configuration, holds no more rejected models than it
/// may, and a cost that is not negative.
pub open spec fn account_wf(
    state: AccountStateView,
    account: crate::config::AccountView,
    default: Level,
) -> bool {
    &&& state.name == account.name
    &&& state.threshold_percent == account.threshold(default)
    &&& state.unavailable_models.dom().finite()
    &&& state.unavailable_models.dom().len() <= MODEL_CACHE_LIMIT
    &&& crate::double::is_plain(state.estimated_cost_usd)
}

/// The pool of a configuration, with the routing that it starts from.
pub open spec fn new_pool(config: ConfigView, routing: RoutingView) -> PoolView {
    PoolView {
        config,
        bindings: config.accounts.map_values(
            |account: crate::config::AccountView| crate::identity::binding_of(account),
        ),
        state: StateView {
            accounts: config.accounts.map_values(
                |account: crate::config::AccountView|
                    new_account(account, config.settings.threshold_percent),
            ),
            routing,
            sequence: 0,
            recent: Seq::empty(),
        },
    }
}

/// The state of an account of which nothing is known yet.
pub fn fresh_account(account: &Account, default: Level) -> (state: AccountState)
    ensures
        state.wf(),
        state@ == new_account(account@, default),
{
    let state = AccountState {
        name: account.name.clone(),
        disabled: account.disabled,
        hold_until: 0,
        in_flight: 0,
        requests: 0,
        errors: 0,
        input_tokens: 0,
        cached_tokens: 0,
        output_tokens: 0,
        unmetered_requests: 0,
        estimated_cost_usd: Level { bits: 0 },
        unpriced_requests: 0,
        quotas: Table::new(),
        unavailable_models: Table::new(),
        last_error: None,
        last_probe: None,
        last_probe_ok: None,
        threshold_percent: account.threshold(default),
        reset_credits: None,
        resets: 0,
        last_reset: None,
        reset_retry_at: 0,
        selected: 0,
        removed: false,
    };
    assert(state@ =~= new_account(account@, default));
    state
}

impl Pool {
    /// The tables of the pool are in order, and so is what they hold.
    pub open spec fn wf(&self) -> bool {
        &&& self.config.wf()
        &&& self.state.routing.wf()
        &&& forall|i: int|
            0 <= i < self.state.accounts@.len() ==> (#[trigger] self.state.accounts@[i]).wf()
        &&& self@.wf()
    }

    /// A pool that keeps its routing in memory.
    pub fn new(config: Config) -> (result: Result<Pool, ConfigError>)
        requires
            config.wf(),
        ensures
            match result {
                Ok(pool) => pool.wf() && config@.error() is None && pool@ == new_pool(
                    config@,
                    crate::affinity::empty_routing(false),
                ),
                Err(error) => config@.error() == Some(error),
            },
    {
        Pool::with_routing(config, Routing::new(false))
    }

    /// A pool that starts from given routing, such as a journal holds.
    pub fn with_routing(config: Config, routing: Routing) -> (result: Result<Pool, ConfigError>)
        requires
            config.wf(),
            routing.wf(),
            routing@.wf(),
        ensures
            match result {
                Ok(pool) => pool.wf() && config@.error() is None && pool@ == new_pool(
                    config@,
                    routing@,
                ),
                Err(error) => config@.error() == Some(error),
            },
    {
        match config.validate() {
            Err(error) => return Err(error),
            Ok(()) => {},
        }
        let ghost target = new_pool(config@, routing@);
        let mut bindings: Vec<String> = Vec::new();
        let mut accounts: Vec<AccountState> = Vec::new();
        let mut i: usize = 0;
        while i < config.accounts.len()
            invariant
                i <= config.accounts@.len(),
                target == new_pool(config@, routing@),
                bindings@.len() == i,
                accounts@.len() == i,
                forall|k: int|
                    0 <= k < i ==> #[trigger] bindings@[k]@ == crate::identity::binding_of(
                        config.accounts@[k]@,
                    ),
                forall|k: int|
                    0 <= k < i ==> (#[trigger] accounts@[k]).wf() && accounts@[k]@ == new_account(
                        config.accounts@[k]@,
                        config.threshold_percent,
                    ),
            decreases config.accounts@.len() - i,
        {
            bindings.push(account_binding(&config.accounts[i]));
            accounts.push(fresh_account(&config.accounts[i], config.threshold_percent));
            i = i + 1;
        }
        let state = State { accounts, routing, sequence: 0, recent: Vec::new() };
        let pool = Pool { config, bindings, state };
        proof {
            assert(pool@.bindings =~= target.bindings);
            assert(pool@.state.accounts =~= target.state.accounts);
            assert(pool@.state.recent =~= Seq::empty());
            assert(pool@ =~= target);
            assert forall|k: int| 0 <= k < pool@.state.accounts.len() implies account_wf(
                #[trigger] pool@.state.accounts[k],
                pool@.config.accounts[k],
                pool@.config.settings.threshold_percent,
            ) by {
                assert(Map::<Seq<char>, u64>::empty().dom() =~= Set::empty());
            }
        }
        Ok(pool)
    }

    /// How many accounts there are. The number never shrinks.
    pub fn len(&self) -> (count: usize)
        requires
            self.wf(),
        ensures
            count == self@.config.accounts.len(),
            count == self@.state.accounts.len(),
            count == self@.bindings.len(),
    {
        self.config.accounts.len()
    }

    /// The configuration of an account.
    pub fn account(&self, idx: usize) -> (account: Option<&Account>)
        requires
            self.wf(),
        ensures
            account is Some <==> idx < self@.config.accounts.len(),
            account matches Some(found) ==> found@ == self@.config.accounts[idx as int],
    {
        if idx < self.config.accounts.len() {
            Some(&self.config.accounts[idx])
        } else {
            None
        }
    }

    /// The first account with a name.
    pub fn index(&self, name: &str) -> (idx: Option<usize>)
        requires
            self.wf(),
        ensures
            match idx {
                Some(found) => found < self@.state.accounts.len()
                    && self@.state.accounts[found as int].name == name@ && forall|i: int|
                    0 <= i < found ==> (#[trigger] self@.state.accounts[i]).name != name@,
                None => forall|i: int|
                    0 <= i < self@.state.accounts.len() ==> (
                    #[trigger] self@.state.accounts[i]).name != name@,
            },
    {
        let mut i: usize = 0;
        while i < self.state.accounts.len()
            invariant
                self.wf(),
                i <= self.state.accounts@.len(),
                forall|k: int| 0 <= k < i ==> (#[trigger] self@.state.accounts[k]).name != name@,
            decreases self.state.accounts@.len() - i,
        {
            assert(self@.state.accounts[i as int] == self.state.accounts@[i as int]@);
            if same(self.state.accounts[i].name.as_str(), name) {
                return Some(i);
            }
            i = i + 1;
        }
        None
    }

    /// Whether every write to the routing journal has succeeded.
    pub fn routing_healthy(&self) -> (yes: bool)
        ensures
            yes == !self@.state.routing.failed,
    {
        self.state.routing.healthy()
    }
}

/// The account on hold until a given time at least, with the reason for it.
pub open spec fn held(account: AccountStateView, until: u64, reason: Seq<char>) -> AccountStateView {
    AccountStateView {
        last_error: Some(reason),
        errors: account.errors.wrapping_add(1),
        ..deferred(account, until)
    }
}

/// The account on hold until a given time at least.
pub open spec fn deferred(account: AccountStateView, until: u64) -> AccountStateView {
    AccountStateView {
        hold_until: if account.hold_until < until {
            until
        } else {
            account.hold_until
        },
        ..account
    }
}

/// The rejected models that are not to be asked for at a given time.
pub open spec fn current_models(models: Map<Seq<char>, u64>, at: u64) -> Map<Seq<char>, u64> {
    models.restrict(Set::new(|model: Seq<char>| models.contains_key(model) && models[model] > at))
}

/// The rejected model that is due first; of those due at the same time, the first name.
pub open spec fn is_soonest(models: Map<Seq<char>, u64>, model: Seq<char>) -> bool {
    &&& models.contains_key(model)
    &&& forall|other: Seq<char>| #[trigger]
        models.contains_key(other) ==> models[model] < models[other] || (models[model]
            == models[other] && (model == other || crate::text::before(model, other)))
}

/// Rejected models with one more: those that are due leave, and where there are still as many as
/// there may be, the one that is due first leaves.
pub open spec fn with_model(
    models: Map<Seq<char>, u64>,
    model: Seq<char>,
    at: u64,
) -> Map<Seq<char>, u64> {
    let current = current_models(models, at);
    let room = if current.dom().len() >= MODEL_CACHE_LIMIT && !current.contains_key(model) {
        current.remove(choose|soonest: Seq<char>| is_soonest(current, soonest))
    } else {
        current
    };
    room.insert(model, crate::affinity::later(at, MODEL_RETRY_SECONDS))
}

/// A model whose rejection is remembered.
pub open spec fn is_model_name(model: Seq<char>) -> bool {
    model.len() > 0 && crate::text::utf8(model).len() <= 256
}

/// The account with a model marked as rejected.
pub open spec fn marked(account: AccountStateView, model: Seq<char>, at: u64) -> AccountStateView {
    if is_model_name(model) {
        AccountStateView {
            unavailable_models: with_model(account.unavailable_models, model, at),
            ..account
        }
    } else {
        account
    }
}

/// A pool is the same but for one account.
pub(crate) proof fn lemma_account_changed(before: Pool, after: Pool, idx: int)
    requires
        before.wf(),
        0 <= idx < before.state.accounts@.len(),
        after.config == before.config,
        after.bindings == before.bindings,
        after.state.routing == before.state.routing,
        after.state.sequence == before.state.sequence,
        after.state.recent == before.state.recent,
        after.state.accounts@.len() == before.state.accounts@.len(),
        forall|i: int|
            0 <= i < before.state.accounts@.len() && i != idx ==> #[trigger]
                after.state.accounts@[i] == before.state.accounts@[i],
        after.state.accounts@[idx].wf(),
        account_wf(
            after.state.accounts@[idx]@,
            before@.config.accounts[idx],
            before@.config.settings.threshold_percent,
        ),
        after.state.accounts@[idx].selected <= before.state.sequence,
    ensures
        after.wf(),
        after@ == before@.with_account(idx, after.state.accounts@[idx]@),
{
    let account = after.state.accounts@[idx];
    assert(after@.state.accounts =~= before@.state.accounts.update(idx, account@));
    assert(after@ =~= before@.with_account(idx, account@));
    assert forall|i: int| 0 <= i < after.state.accounts@.len() implies (
    #[trigger] after.state.accounts@[i]).wf() by {
        if i != idx {
            assert(after.state.accounts@[i] == before.state.accounts@[i]);
        }
    }
    assert forall|i: int| 0 <= i < after@.state.accounts.len() implies account_wf(
        #[trigger] after@.state.accounts[i],
        after@.config.accounts[i],
        after@.config.settings.threshold_percent,
    ) by {
        if i != idx {
            assert(after@.state.accounts[i] == before@.state.accounts[i]);
        }
    }
    assert forall|i: int| 0 <= i < after@.state.accounts.len() implies (
    #[trigger] after@.state.accounts[i]).selected <= after@.state.sequence by {
        if i != idx {
            assert(after@.state.accounts[i] == before@.state.accounts[i]);
        }
    }
}

impl Pool {
    /// Enables or disables the first account with a name; `false` where there is none.
    pub fn set_enabled(&mut self, name: &str, enabled: bool) -> (known: bool)
        requires
            old(self).wf(),
        ensures
            final(self).wf(),
            match first_named(old(self)@.state.accounts, name@) {
                Some(idx) => known && final(self)@ == old(self)@.with_account(
                    idx as int,
                    AccountStateView {
                        disabled: !enabled,
                        ..old(self)@.state.accounts[idx as int]
                    },
                ),
                None => !known && final(self)@ == old(self)@,
            },
    {
        let ghost before = *self;
        match self.index(name) {
            Some(idx) => {
                proof {
                    lemma_first_named(self@.state.accounts, name@, idx as int);
                }
                self.state.accounts[idx].disabled = !enabled;
                proof {
                    lemma_account_changed(before, *self, idx as int);
                }
                true
            },
            None => {
                proof {
                    lemma_none_named(self@.state.accounts, name@);
                }
                false
            },
        }
    }

    /// Puts an account on hold until a given time at least, and counts an error.
    pub fn hold(&mut self, idx: usize, until: u64, reason: &str)
        requires
            old(self).wf(),
            idx < old(self)@.state.accounts.len(),
        ensures
            final(self).wf(),
            final(self)@ == old(self)@.with_account(
                idx as int,
                held(old(self)@.state.accounts[idx as int], until, reason@),
            ),
    {
        let ghost before = *self;
        if self.state.accounts[idx].hold_until < until {
            self.state.accounts[idx].hold_until = until;
        }
        self.state.accounts[idx].last_error = Some(owned(reason));
        self.state.accounts[idx].errors = self.state.accounts[idx].errors.wrapping_add(1);
        proof {
            lemma_account_changed(before, *self, idx as int);
        }
    }

    /// Puts an account on hold until a given time at least.
    pub fn defer(&mut self, idx: usize, until: u64)
        requires
            old(self).wf(),
            idx < old(self)@.state.accounts.len(),
        ensures
            final(self).wf(),
            final(self)@ == old(self)@.with_account(
                idx as int,
                deferred(old(self)@.state.accounts[idx as int], until),
            ),
    {
        let ghost before = *self;
        if self.state.accounts[idx].hold_until < until {
            self.state.accounts[idx].hold_until = until;
        }
        proof {
            lemma_account_changed(before, *self, idx as int);
        }
    }

    /// Takes in what was learned of the windows of an account.
    pub fn update_quotas(&mut self, idx: usize, quotas: &Quotas)
        requires
            old(self).wf(),
            idx < old(self)@.state.accounts.len(),
            quotas.wf(),
        ensures
            final(self).wf(),
            final(self)@ == old(self)@.with_account(
                idx as int,
                AccountStateView {
                    quotas: old(self)@.state.accounts[idx as int].quotas.union_prefer_right(
                        quotas@,
                    ),
                    ..old(self)@.state.accounts[idx as int]
                },
            ),
    {
        let ghost before = *self;
        extend(&mut self.state.accounts[idx].quotas, quotas);
        proof {
            lemma_account_changed(before, *self, idx as int);
        }
    }

    /// Remembers at a given time that an account rejected a model.
    pub fn mark_model_unavailable_at(&mut self, idx: usize, model: &str, at: u64)
        requires
            old(self).wf(),
            idx < old(self)@.state.accounts.len(),
        ensures
            final(self).wf(),
            final(self)@ == old(self)@.with_account(
                idx as int,
                marked(old(self)@.state.accounts[idx as int], model@, at),
            ),
    {
        let ghost before = *self;
        let length: usize = byte_len(model);
        proof {
            lemma_empty_text(model@);
            assert(self@.state.accounts[idx as int] == self.state.accounts@[idx as int]@);
            assert(self@ =~= self@.with_account(idx as int, self@.state.accounts[idx as int]));
        }
        if length == 0 || length > 256 {
            return;
        }
        mark(&mut self.state.accounts[idx].unavailable_models, model, at);
        proof {
            lemma_account_changed(before, *self, idx as int);
        }
    }

    /// Remembers that an account rejected a model.
    pub fn mark_model_unavailable(&mut self, idx: usize, model: &str)
        requires
            old(self).wf(),
            idx < old(self)@.state.accounts.len(),
        ensures
            final(self).wf(),
            exists|at: u64|
                final(self)@ == old(self)@.with_account(
                    idx as int,
                    #[trigger] marked(old(self)@.state.accounts[idx as int], model@, at),
                ),
    {
        let at: u64 = now();
        self.mark_model_unavailable_at(idx, model, at);
    }

    /// Records the number of reset credits of an account, where it is known.
    pub fn set_reset_credits(&mut self, idx: usize, credits: Option<i64>)
        requires
            old(self).wf(),
            idx < old(self)@.state.accounts.len(),
        ensures
            final(self).wf(),
            final(self)@ == old(self)@.with_account(
                idx as int,
                AccountStateView {
                    reset_credits: match credits {
                        Some(count) => Some(count),
                        None => old(self)@.state.accounts[idx as int].reset_credits,
                    },
                    ..old(self)@.state.accounts[idx as int]
                },
            ),
    {
        let ghost before = *self;
        if credits.is_some() {
            self.state.accounts[idx].reset_credits = credits;
        }
        proof {
            lemma_account_changed(before, *self, idx as int);
        }
    }

    /// Records that the windows of an account were reset at a given time.
    pub fn record_reset_at(&mut self, idx: usize, at: u64)
        requires
            old(self).wf(),
            idx < old(self)@.state.accounts.len(),
        ensures
            final(self).wf(),
            final(self)@ == old(self)@.with_account(
                idx as int,
                AccountStateView {
                    resets: old(self)@.state.accounts[idx as int].resets.wrapping_add(1),
                    last_reset: Some(at),
                    ..old(self)@.state.accounts[idx as int]
                },
            ),
    {
        let ghost before = *self;
        self.state.accounts[idx].resets = self.state.accounts[idx].resets.wrapping_add(1);
        self.state.accounts[idx].last_reset = Some(at);
        proof {
            lemma_account_changed(before, *self, idx as int);
        }
    }

    /// Lets no automatic reset of an account happen before a given time.
    pub fn defer_reset(&mut self, idx: usize, until: u64)
        requires
            old(self).wf(),
            idx < old(self)@.state.accounts.len(),
        ensures
            final(self).wf(),
            final(self)@ == old(self)@.with_account(
                idx as int,
                AccountStateView {
                    reset_retry_at: if old(self)@.state.accounts[idx as int].reset_retry_at
                        < until {
                        until
                    } else {
                        old(self)@.state.accounts[idx as int].reset_retry_at
                    },
                    ..old(self)@.state.accounts[idx as int]
                },
            ),
    {
        let ghost before = *self;
        if self.state.accounts[idx].reset_retry_at < until {
            self.state.accounts[idx].reset_retry_at = until;
        }
        proof {
            lemma_account_changed(before, *self, idx as int);
        }
    }

    /// Records how a probe of an account ended.
    pub fn record_probe(&mut self, idx: usize, ok: bool, at: u64)
        requires
            old(self).wf(),
            idx < old(self)@.state.accounts.len(),
        ensures
            final(self).wf(),
            final(self)@ == old(self)@.with_account(
                idx as int,
                AccountStateView {
                    last_probe: Some(at),
                    last_probe_ok: Some(ok),
                    ..old(self)@.state.accounts[idx as int]
                },
            ),
    {
        let ghost before = *self;
        self.state.accounts[idx].last_probe = Some(at);
        self.state.accounts[idx].last_probe_ok = Some(ok);
        proof {
            lemma_account_changed(before, *self, idx as int);
        }
    }

    /// Records how the renewal of a managed credential ended: a failure is noted, and a success
    /// takes only such a note away.
    pub fn record_renewal(&mut self, idx: usize, failed: bool)
        requires
            old(self).wf(),
            idx < old(self)@.state.accounts.len(),
        ensures
            final(self).wf(),
            final(self)@ == old(self)@.with_account(
                idx as int,
                AccountStateView {
                    last_error: if failed {
                        Some("login_or_refresh_required"@)
                    } else if old(self)@.state.accounts[idx as int].last_error == Some(
                        "login_or_refresh_required"@,
                    ) {
                        None
                    } else {
                        old(self)@.state.accounts[idx as int].last_error
                    },
                    ..old(self)@.state.accounts[idx as int]
                },
            ),
    {
        let ghost before = *self;
        if failed {
            self.state.accounts[idx].last_error = Some(owned("login_or_refresh_required"));
        } else if option_same(&self.state.accounts[idx].last_error, "login_or_refresh_required") {
            self.state.accounts[idx].last_error = None;
        }
        proof {
            lemma_account_changed(before, *self, idx as int);
        }
    }
}

/// The first account with a name.
pub open spec fn first_named(accounts: Seq<AccountStateView>, name: Seq<char>) -> Option<nat>
    decreases accounts.len(),
{
    if accounts.len() == 0 {
        None
    } else {
        match first_named(accounts.drop_last(), name) {
            Some(idx) => Some(idx),
            None => if accounts.last().name == name {
                Some((accounts.len() - 1) as nat)
            } else {
                None
            },
        }
    }
}

proof fn lemma_none_named(accounts: Seq<AccountStateView>, name: Seq<char>)
    requires
        forall|i: int| 0 <= i < accounts.len() ==> (#[trigger] accounts[i]).name != name,
    ensures
        first_named(accounts, name) is None,
    decreases accounts.len(),
{
    if accounts.len() > 0 {
        let rest = accounts.drop_last();
        assert forall|i: int| 0 <= i < rest.len() implies (#[trigger] rest[i]).name != name by {
            assert(rest[i] == accounts[i]);
        }
        lemma_none_named(rest, name);
        assert(accounts[accounts.len() - 1].name != name);
    }
}

proof fn lemma_first_named(accounts: Seq<AccountStateView>, name: Seq<char>, idx: int)
    requires
        0 <= idx < accounts.len(),
        accounts[idx].name == name,
        forall|i: int| 0 <= i < idx ==> (#[trigger] accounts[i]).name != name,
    ensures
        first_named(accounts, name) == Some(idx as nat),
    decreases accounts.len(),
{
    let rest = accounts.drop_last();
    if idx < rest.len() {
        lemma_first_named(rest, name, idx);
    } else {
        assert forall|i: int| 0 <= i < rest.len() implies (#[trigger] rest[i]).name != name by {
            assert(rest[i] == accounts[i]);
        }
        lemma_none_named(rest, name);
    }
}

proof fn lemma_empty_text(text: Seq<char>)
    ensures
        crate::text::utf8(text).len() == 0 <==> text.len() == 0,
{
    if crate::text::utf8(text).len() == 0 {
        assert(crate::text::utf8(text) =~= crate::text::utf8(Seq::empty()));
        vstd::utf8::encode_utf8_decode_utf8(text);
        vstd::utf8::encode_utf8_decode_utf8(Seq::<char>::empty());
    }
    if text.len() == 0 {
        assert(text =~= Seq::<char>::empty());
    }
}

/// Takes the rows of one table into another.
fn extend(quotas: &mut Quotas, more: &Quotas)
    requires
        old(quotas).wf(),
        more.wf(),
    ensures
        final(quotas).wf(),
        final(quotas)@ == old(quotas)@.union_prefer_right(more@),
{
    let ghost before = quotas@;
    let ghost mut taken: Set<Seq<char>> = Set::empty();
    let mut i: usize = 0;
    assert(quotas@ =~= before.union_prefer_right(more@.restrict(taken)));
    while i < more.len()
        invariant
            more.wf(),
            quotas.wf(),
            i <= more.entries().len(),
            forall|k: int|
                0 <= k < i ==> taken.contains((#[trigger] more.entries()[k]).0),
            forall|key: Seq<char>| #[trigger] taken.contains(key) ==> more@.contains_key(key),
            quotas@ == before.union_prefer_right(more@.restrict(taken)),
        decreases more.entries().len() - i,
    {
        proof {
            more.rows_are_the_map();
        }
        let ghost key = more.entries()[i as int].0;
        quotas.insert(owned(more.key(i)), *more.value(i));
        proof {
            let next = taken.insert(key);
            assert(quotas@ =~= before.union_prefer_right(more@.restrict(next)));
            taken = next;
        }
        i = i + 1;
    }
    proof {
        more.rows_are_the_map();
        assert(more@.restrict(taken) =~= more@) by {
            assert forall|key: Seq<char>| more@.contains_key(key) implies taken.contains(key) by {
                let k = choose|k: int|
                    0 <= k < more.entries().len() && (#[trigger] more.entries()[k]).0 == key;
                assert(taken.contains(more.entries()[k].0));
            }
        }
    }
}

/// Takes the models that are due out.
fn drop_due(models: &mut Table<u64>, at: u64)
    requires
        old(models).wf(),
    ensures
        final(models).wf(),
        final(models)@ == current_models(old(models)@, at),
{
    let ghost before = models@;
    let mut i: usize = 0;
    while i < models.len()
        invariant
            models.wf(),
            i <= models.entries().len(),
            forall|k: int| 0 <= k < i ==> (#[trigger] models.entries()[k]).1 > at,
            forall|key: Seq<char>| #[trigger]
                models@.contains_key(key) ==> before.contains_key(key) && before[key]
                    == models@[key],
            forall|key: Seq<char>| #[trigger]
                before.contains_key(key) && before[key] > at ==> models@.contains_key(key),
        decreases models.entries().len() - i,
    {
        if *models.value(i) > at {
            i = i + 1;
        } else {
            proof {
                models.rows_are_the_map();
            }
            models.remove_row(i);
        }
    }
    proof {
        models.rows_are_the_map();
        let target = current_models(before, at);
        assert forall|key: Seq<char>| models@.contains_key(key) implies #[trigger]
            target.contains_key(key) && target[key] == models@[key] by {
            let k = choose|k: int|
                0 <= k < models.entries().len() && (#[trigger] models.entries()[k]).0 == key;
            assert(models.entries()[k].1 > at);
        }
        assert(models@ =~= target);
    }
}

/// Takes the model that is due first out.
fn drop_soonest(models: &mut Table<u64>)
    requires
        old(models).wf(),
        old(models)@.dom().len() > 0,
    ensures
        final(models).wf(),
        final(models)@ == old(models)@.remove(
            choose|soonest: Seq<char>| is_soonest(old(models)@, soonest),
        ),
        final(models)@.dom().len() == old(models)@.dom().len() - 1,
{
    proof {
        models.rows_are_the_map();
    }
    let mut best: usize = 0;
    let mut i: usize = 1;
    let count: usize = models.len();
    while i < count
        invariant
            models.wf(),
            count == models.entries().len(),
            best < i <= count,
            forall|k: int|
                0 <= k < i ==> models.entries()[best as int].1 < (
                #[trigger] models.entries()[k]).1 || (models.entries()[best as int].1
                    == models.entries()[k].1 && best <= k),
        decreases count - i,
    {
        if *models.value(i) < *models.value(best) {
            best = i;
        }
        i = i + 1;
    }
    proof {
        let map = models@;
        let key = models.entries()[best as int].0;
        assert(is_soonest(map, key)) by {
            assert forall|other: Seq<char>| #[trigger] map.contains_key(other) implies map[key]
                < map[other] || (map[key] == map[other] && (key == other || crate::text::before(
                key,
                other,
            ))) by {
                let k = choose|k: int|
                    0 <= k < models.entries().len() && (#[trigger] models.entries()[k]).0 == other;
                assert(map[other] == models.entries()[k].1);
                assert(best < k ==> crate::text::before(
                    models.entries()[best as int].0,
                    models.entries()[k].0,
                ));
            }
        }
        let chosen = choose|chosen: Seq<char>| is_soonest(map, chosen);
        assert(chosen == key) by {
            assert(is_soonest(map, chosen));
            assert(map.contains_key(chosen));
            assert(map.contains_key(key));
            crate::text::before_is_total(chosen, key);
        }
    }
    models.remove_row(best);
}

/// Marks a model as rejected.
fn mark(models: &mut Table<u64>, model: &str, at: u64)
    requires
        old(models).wf(),
        old(models)@.dom().len() <= MODEL_CACHE_LIMIT,
    ensures
        final(models).wf(),
        final(models)@ == with_model(old(models)@, model@, at),
        final(models)@.dom().finite(),
        final(models)@.dom().len() <= MODEL_CACHE_LIMIT,
{
    let ghost before = models@;
    proof {
        models.rows_are_the_map();
    }
    drop_due(models, at);
    let ghost current = models@;
    proof {
        assert(current.dom().subset_of(before.dom()));
        vstd::set_lib::lemma_len_subset(current.dom(), before.dom());
    }
    if models.len() >= MODEL_CACHE_LIMIT && !models.contains_key(model) {
        drop_soonest(models);
    }
    let ghost room = models@;
    proof {
        models.rows_are_the_map();
    }
    models.insert(owned(model), at.saturating_add(MODEL_RETRY_SECONDS));
    proof {
        assert(models@.dom() =~= room.dom().insert(model@));
        if current.contains_key(model@) {
            assert(room == current);
            assert(models@.dom() =~= current.dom());
        }
    }
}

/// A hold never ends earlier for another hold.
pub proof fn holds_never_shorten(account: AccountStateView, until: u64, reason: Seq<char>)
    ensures
        held(account, until, reason).hold_until >= account.hold_until,
        held(account, until, reason).hold_until >= until,
        deferred(account, until).hold_until >= account.hold_until,
        deferred(account, until).hold_until >= until,
        deferred(account, until).hold_until == account.hold_until || deferred(
            account,
            until,
        ).hold_until == until,
{
}

/// A rejected model is not asked for again for five minutes, and then it is.
pub proof fn rejected_model_returns(
    account: AccountStateView,
    model: Seq<char>,
    at: u64,
    time: u64,
)
    requires
        is_model_name(model),
    ensures
        crate::select::model_is_open(marked(account, model, at), model, time) <==> time
            >= crate::affinity::later(at, MODEL_RETRY_SECONDS),
{
}

/// Rejecting one model closes no other.
pub proof fn other_models_stay_open(
    account: AccountStateView,
    model: Seq<char>,
    other: Seq<char>,
    at: u64,
    time: u64,
)
    requires
        other != model,
        crate::select::model_is_open(account, other, time),
    ensures
        crate::select::model_is_open(marked(account, model, at), other, time),
{
}

/// While there is room, rejecting one model opens no other that is still closed.
pub proof fn other_models_stay_closed(
    account: AccountStateView,
    model: Seq<char>,
    other: Seq<char>,
    at: u64,
    time: u64,
)
    requires
        other != model,
        time >= at,
        !crate::select::model_is_open(account, other, time),
        account.unavailable_models.dom().finite(),
        account.unavailable_models.dom().len() < MODEL_CACHE_LIMIT,
    ensures
        !crate::select::model_is_open(marked(account, model, at), other, time),
{
    let current = current_models(account.unavailable_models, at);
    assert(current.dom().subset_of(account.unavailable_models.dom()));
    vstd::set_lib::lemma_len_subset(current.dom(), account.unavailable_models.dom());
}

/// An account is found by its name, the first of that name where several have it, and only where one
/// has it.
pub proof fn account_is_found_by_name(accounts: Seq<AccountStateView>, name: Seq<char>)
    ensures
        first_named(accounts, name) matches Some(idx) ==> idx < accounts.len() && accounts[idx as int].name
            == name && forall|i: int| 0 <= i < idx ==> (#[trigger] accounts[i]).name != name,
        first_named(accounts, name) is Some <==> exists|i: int|
            0 <= i < accounts.len() && (#[trigger] accounts[i]).name == name,
    decreases accounts.len(),
{
    if accounts.len() > 0 {
        let rest = accounts.drop_last();
        account_is_found_by_name(rest, name);
        assert forall|i: int| 0 <= i < rest.len() implies #[trigger] accounts[i] == rest[i] by {}
        if first_named(rest, name) is Some {
            let idx = first_named(rest, name)->Some_0 as int;
            assert(accounts[idx].name == name);
        } else {
            assert forall|i: int| 0 <= i < rest.len() implies (#[trigger] accounts[i]).name
                != name by {
                assert(rest[i].name != name);
            }
            if accounts.last().name == name {
                assert(accounts[accounts.len() - 1].name == name);
            }
        }
    }
}

/// A rejected model is closed for five minutes to the account that rejected it; a name of no
/// characters, or of more than 256 bytes, closes nothing.
pub proof fn rejected_model_is_closed_for_five_minutes(
    account: AccountStateView,
    model: Seq<char>,
    at: u64,
    time: u64,
)
    requires
        at + 300 <= u64::MAX,
    ensures
        0 < model.len() && crate::text::utf8(model).len() <= 256 ==> (crate::select::model_is_open(
            marked(account, model, at),
            model,
            time,
        ) <==> time >= at + 300),
        model.len() == 0 || crate::text::utf8(model).len() > 256 ==> marked(account, model, at)
            == account,
{
    if is_model_name(model) {
        rejected_model_returns(account, model, at, time);
    }
}

/// An account remembers up to 256 rejected models: while it remembers fewer, those still closed stay
/// so; beyond that one of those that open soonest gives way.
pub proof fn rejected_models_are_remembered(
    account: AccountStateView,
    model: Seq<char>,
    other: Seq<char>,
    at: u64,
)
    requires
        account.unavailable_models.dom().finite(),
        account.unavailable_models.dom().len() <= 256,
        is_model_name(model),
        other != model,
    ensures
        ({
            let before = account.unavailable_models;
            let after = marked(account, model, at).unavailable_models;
            &&& after.contains_key(other) ==> before.contains_key(other) && before[other]
                == after[other] && before[other] > at
            &&& before.contains_key(other) && before[other] > at && before.dom().len() < 256
                ==> after.contains_key(other)
        }),
{
    let current = current_models(account.unavailable_models, at);
    assert(current.dom().subset_of(account.unavailable_models.dom()));
    vstd::set_lib::lemma_len_subset(current.dom(), account.unavailable_models.dom());
}

/// A new account starts with nothing counted, no hold, no window and no rejected model; it is off
/// only where the configuration says so.
pub proof fn new_account_starts_clean(
    account: crate::config::AccountView,
    default: Level,
    model: Seq<char>,
    at: u64,
)
    ensures
        ({
            let state = new_account(account, default);
            &&& state.name == account.name && state.disabled == account.disabled
            &&& !state.removed && state.hold_until == 0 && state.in_flight == 0
            &&& state.requests == 0 && state.errors == 0 && state.unmetered_requests == 0
            &&& state.input_tokens == 0 && state.cached_tokens == 0 && state.output_tokens == 0
            &&& state.unpriced_requests == 0 && state.estimated_cost_usd.bits == 0
            &&& state.selected == 0 && state.resets == 0 && state.reset_retry_at == 0
            &&& state.last_error is None && state.last_probe is None && state.last_probe_ok is None
            &&& state.last_reset is None && state.reset_credits is None
            &&& state.quotas.dom() =~= Set::empty()
            &&& crate::select::model_is_open(state, model, at)
        }),
{
}

/// A hold counts an error and keeps its reason; putting an account off does neither.
pub proof fn holds_are_told(account: AccountStateView, until: u64, reason: Seq<char>)
    requires
        account.errors < u64::MAX,
    ensures
        held(account, until, reason).errors == account.errors + 1,
        held(account, until, reason).last_error == Some(reason),
        deferred(account, until).errors == account.errors,
        deferred(account, until).last_error == account.last_error,
        account.hold_until < until ==> held(account, until, reason).hold_until == until
            && deferred(account, until).hold_until == until,
        account.hold_until >= until ==> held(account, until, reason).hold_until
            == account.hold_until && deferred(account, until) == account,
{
}

proof fn lemma_soonest_exists(models: Map<Seq<char>, u64>)
    requires
        models.dom().finite(),
        models.dom().len() > 0,
    ensures
        exists|model: Seq<char>| is_soonest(models, model),
    decreases models.dom().len(),
{
    let any = models.dom().choose();
    assert(models.dom().contains(any));
    let rest = models.remove(any);
    assert(rest.dom() =~= models.dom().remove(any));
    if rest.dom().len() == 0 {
        assert(is_soonest(models, any)) by {
            assert forall|other: Seq<char>| #[trigger] models.contains_key(other) implies models[any]
                < models[other] || (models[any] == models[other] && (any == other
                || crate::text::before(any, other))) by {
                if other != any {
                    assert(rest.dom().contains(other));
                }
            }
        }
    } else {
        lemma_soonest_exists(rest);
        let first = choose|model: Seq<char>| is_soonest(rest, model);
        crate::text::before_is_total(any, first);
        assert(rest.contains_key(first));
        let winner = if models[any] < models[first] || (models[any] == models[first]
            && crate::text::before(any, first)) {
            any
        } else {
            first
        };
        assert(is_soonest(models, winner)) by {
            assert forall|other: Seq<char>| #[trigger] models.contains_key(other) implies models[winner]
                < models[other] || (models[winner] == models[other] && (winner == other
                || crate::text::before(winner, other))) by {
                if other != any {
                    assert(rest.contains_key(other));
                    if winner == any && models[any] == models[other] && other != first {
                        crate::text::before_is_transitive(any, first, other);
                    }
                }
            }
        }
    }
}

/// Where 256 rejected models are still closed, the one that opens soonest gives way to another, and
/// no other does.
pub proof fn soonest_model_gives_way(
    account: AccountStateView,
    model: Seq<char>,
    gone: Seq<char>,
    other: Seq<char>,
    at: u64,
)
    requires
        account.unavailable_models.dom().finite(),
        account.unavailable_models.dom().len() <= 256,
        is_model_name(model),
        account.unavailable_models.contains_key(gone),
        account.unavailable_models[gone] > at,
        !marked(account, model, at).unavailable_models.contains_key(gone),
        other != model,
        marked(account, model, at).unavailable_models.contains_key(other),
    ensures
        account.unavailable_models.dom().len() == 256,
        account.unavailable_models[gone] <= account.unavailable_models[other],
{
    let current = current_models(account.unavailable_models, at);
    assert(current.dom().subset_of(account.unavailable_models.dom()));
    vstd::set_lib::lemma_len_subset(current.dom(), account.unavailable_models.dom());
    assert(current.contains_key(gone));
    if current.dom().len() >= MODEL_CACHE_LIMIT {
        lemma_soonest_exists(current);
        let soonest = choose|soonest: Seq<char>| is_soonest(current, soonest);
        assert(is_soonest(current, soonest));
        assert(current.contains_key(other));
    }
}

} // verus!
