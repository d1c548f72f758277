//! What a pool tells of itself: why nothing can serve a request, when that may change, and its
//! state as a whole.
use crate::now;
use crate::pool::AccountState;
use crate::pool::AccountStateView;
use crate::pool::Pool;
use crate::pool::PoolView;
use crate::pool::RequestLog;
use crate::quota::Quotas;
use crate::quota::Window;
use crate::select::belongs;
use crate::select::is_at_threshold;
use crate::select::is_open;
use crate::select::keys_for;
use crate::select::may_serve;
use crate::select::Ask;
use crate::table::Table;
use crate::text::copy_option;
use crate::text::owned;
use vstd::prelude::*;
use vstd::string::*;

verus! {

/// The wait where the pool knows of nothing to wait for.
pub const DEFAULT_WAIT: u64 = 30;

impl PoolView {
    /// The request could go to this account, whatever its state.
    pub open spec fn matched(self, i: int, group: Option<Seq<char>>, pinned: Option<usize>) -> bool {
        &&& 0 <= i < self.config.accounts.len()
        &&& pinned matches Some(pin) ==> pin == i
        &&& crate::select::in_group(self.config.accounts[i], group)
    }

    /// The account has access to the model, as far as is known.
    pub open spec fn has_access(self, i: int, model: Seq<char>, at: u64) -> bool {
        &&& crate::select::allows_model(self.config.accounts[i], model)
        &&& crate::select::model_is_open(self.state.accounts[i], model, at)
    }

    /// Some account could take the request, and none that could has access to the model.
    pub open spec fn model_closed(
        self,
        model: Seq<char>,
        group: Option<Seq<char>>,
        pinned: Option<usize>,
        at: u64,
    ) -> bool {
        &&& model.len() > 0
        &&& exists|i: int| #[trigger] self.matched(i, group, pinned)
        &&& forall|i: int| #[trigger]
            self.matched(i, group, pinned) ==> !self.has_access(i, model, at)
    }

    /// A reset credit of the account may be redeemed without being asked for.
    pub open spec fn reset_ready(self, i: int, at: u64) -> bool {
        &&& 0 <= i < self.config.accounts.len()
        &&& self.config.accounts[i].auto_reset
        &&& self.config.accounts[i].has_reset_credits()
        &&& self.state.accounts[i].reset_retry_at <= at
        &&& self.state.accounts[i].reset_credits != Some(0i64)
    }

    /// Only its limits keep the account from serving the request.
    pub open spec fn only_limited(self, i: int, ask: Ask) -> bool {
        self.candidate(i, ask) && self.limited(i, ask.model, ask.at)
    }

    /// The account is the only one that only its limits keep from serving the request, and its
    /// reset credit may be redeemed.
    pub open spec fn reset_candidate(self, i: int, ask: Ask) -> bool {
        &&& self.only_limited(i, ask)
        &&& forall|j: int| #[trigger] self.only_limited(j, ask) ==> j == i
        &&& self.reset_ready(i, ask.at)
    }

    /// An account may become eligible at this time.
    pub open spec fn wakes(self, at: u64, time: u64) -> bool {
        &&& time > at
        &&& exists|i: int|
            0 <= i < self.state.accounts.len() && account_wakes(
                #[trigger] self.state.accounts[i],
                at,
                time,
            )
    }

    /// The seconds until an account may become eligible, or the default wait where no time is
    /// known.
    pub open spec fn is_wait(self, at: u64, seconds: u64) -> bool {
        if exists|time: u64| self.wakes(at, time) {
            exists|time: u64|
                {
                    &&& #[trigger] self.wakes(at, time)
                    &&& seconds == time - at
                    &&& forall|other: u64| #[trigger] self.wakes(at, other) ==> time <= other
                }
        } else {
            seconds == DEFAULT_WAIT
        }
    }

    /// An account that is on hold and not disabled.
    pub open spec fn on_hold(self, i: int, at: u64) -> bool {
        &&& 0 <= i < self.state.accounts.len()
        &&& !self.state.accounts[i].disabled
        &&& self.state.accounts[i].hold_until > at
    }

    /// The account on hold whose hold ends first; of those that end together, the first.
    pub open spec fn first_hold(self, i: int, at: u64) -> bool {
        &&& self.on_hold(i, at)
        &&& forall|j: int| #[trigger]
            self.on_hold(j, at) ==> self.state.accounts[i].hold_until
                < self.state.accounts[j].hold_until || (self.state.accounts[i].hold_until
                == self.state.accounts[j].hold_until && i <= j)
    }

    /// A limit of an account that is not disabled resets at this time.
    pub open spec fn quota_resets(self, at: u64, time: u64) -> bool {
        &&& time > at
        &&& exists|i: int|
            0 <= i < self.state.accounts.len() && !(#[trigger] self.state.accounts[i]).disabled
                && limit_resets(self.state.accounts[i], at, time)
    }
}

/// A window that is used up to the threshold resets at this time.
pub open spec fn limit_resets(account: AccountStateView, at: u64, time: u64) -> bool {
    exists|key: Seq<char>| #[trigger]
        crate::select::at_threshold(account, key, at) && account.quotas[key].reset_at == Some(time)
}

/// The account may become eligible at this time: a hold ends, a rejected model may be asked for
/// again, or a limit resets.
pub open spec fn account_wakes(account: AccountStateView, at: u64, time: u64) -> bool {
    ||| time == account.hold_until
    ||| exists|model: Seq<char>|
        account.unavailable_models.contains_key(model)
            && #[trigger] account.unavailable_models[model] == time
    ||| limit_resets(account, at, time)
}

fn least(found: Option<u64>, time: u64) -> (result: Option<u64>)
    ensures
        result == Some(
            match found {
                Some(other) => if time < other {
                    time
                } else {
                    other
                },
                None => time,
            },
        ),
{
    match found {
        Some(other) => if time < other {
            Some(time)
        } else {
            Some(other)
        },
        None => Some(time),
    }
}

/// The earliest time after `at` at which a limit of an account resets.
fn limit_reset(account: &AccountState, at: u64) -> (found: Option<u64>)
    requires
        account.wf(),
    ensures
        found matches Some(time) ==> time > at && limit_resets(account@, at, time),
        forall|time: u64|
            time > at && #[trigger] limit_resets(account@, at, time) ==> (found matches Some(first)
                && first <= time),
{
    let mut found: Option<u64> = None;
    let mut i: usize = 0;
    while i < account.quotas.len()
        invariant
            account.wf(),
            i <= account.quotas.entries().len(),
            found matches Some(time) ==> time > at && limit_resets(account@, at, time),
            forall|k: int|
                0 <= k < i && crate::select::has_reset_after(
                    (#[trigger] account.quotas.entries()[k]).1,
                    at,
                ) && crate::quota::used(account.quotas.entries()[k].1, at).rank()
                    >= account.threshold_percent.rank() ==> (found matches Some(first) && first
                    <= account.quotas.entries()[k].1.reset_at->Some_0),
        decreases account.quotas.entries().len() - i,
    {
        let window: Window = *account.quotas.value(i);
        assert(account.quotas.entries()[i as int].1 == window);
        if window.used(at).at_least(account.threshold_percent) {
            if let Some(reset) = window.reset_at {
                if reset > at {
                    proof {
                        account.quotas.rows_are_the_map();
                        let key = account.quotas.entries()[i as int].0;
                        assert(account@.quotas[key] == window);
                        assert(crate::select::at_threshold(account@, key, at));
                    }
                    found = least(found, reset);
                }
            }
        }
        i = i + 1;
    }
    proof {
        account.quotas.rows_are_the_map();
        assert forall|time: u64| time > at && #[trigger] limit_resets(account@, at, time) implies (
        found matches Some(first) && first <= time) by {
            let key = choose|key: Seq<char>| #[trigger]
                crate::select::at_threshold(account@, key, at) && account@.quotas[key].reset_at
                    == Some(time);
            let k = choose|k: int|
                0 <= k < account.quotas.entries().len() && (
                #[trigger] account.quotas.entries()[k]).0 == key;
            assert(account@.quotas[key] == account.quotas.entries()[k].1);
        }
    }
    found
}

/// The earliest time after `at` at which a rejected model may be asked for again.
fn model_return(account: &AccountState, at: u64) -> (found: Option<u64>)
    requires
        account.wf(),
    ensures
        found matches Some(time) ==> time > at && exists|model: Seq<char>|
            account@.unavailable_models.contains_key(model)
                && #[trigger] account@.unavailable_models[model] == time,
        forall|model: Seq<char>|
            account@.unavailable_models.contains_key(model)
                && #[trigger] account@.unavailable_models[model] > at ==> (found matches Some(
                first,
            ) && first <= account@.unavailable_models[model]),
{
    let mut found: Option<u64> = None;
    let mut i: usize = 0;
    while i < account.unavailable_models.len()
        invariant
            account.wf(),
            i <= account.unavailable_models.entries().len(),
            found matches Some(time) ==> time > at && exists|model: Seq<char>|
                account@.unavailable_models.contains_key(model)
                    && #[trigger] account@.unavailable_models[model] == time,
            forall|k: int|
                0 <= k < i && (#[trigger] account.unavailable_models.entries()[k]).1 > at ==> (found
                    matches Some(first) && first <= account.unavailable_models.entries()[k].1),
        decreases account.unavailable_models.entries().len() - i,
    {
        let until: u64 = *account.unavailable_models.value(i);
        if until > at {
            proof {
                account.unavailable_models.rows_are_the_map();
                let model = account.unavailable_models.entries()[i as int].0;
                assert(account@.unavailable_models.contains_key(model));
                assert(account@.unavailable_models[model] == until);
            }
            found = least(found, until);
        }
        i = i + 1;
    }
    proof {
        account.unavailable_models.rows_are_the_map();
        assert forall|model: Seq<char>|
            account@.unavailable_models.contains_key(model)
                && #[trigger] account@.unavailable_models[model] > at implies (found matches Some(
            first,
        ) && first <= account@.unavailable_models[model]) by {
            let k = choose|k: int|
                0 <= k < account.unavailable_models.entries().len() && (
                #[trigger] account.unavailable_models.entries()[k]).0 == model;
            assert(account@.unavailable_models[model] == account.unavailable_models.entries()[k].1);
        }
    }
    found
}

/// The earliest time after `at` at which an account may become eligible.
fn account_wake(account: &AccountState, at: u64) -> (found: Option<u64>)
    requires
        account.wf(),
    ensures
        found matches Some(time) ==> time > at && account_wakes(account@, at, time),
        forall|time: u64|
            time > at && #[trigger] account_wakes(account@, at, time) ==> (found matches Some(first)
                && first <= time),
{
    let mut found: Option<u64> = None;
    if account.hold_until > at {
        found = Some(account.hold_until);
    }
    if let Some(time) = model_return(account, at) {
        found = least(found, time);
    }
    if let Some(time) = limit_reset(account, at) {
        found = least(found, time);
    }
    found
}

/// What a snapshot tells of an account: limits that have reset count as unused, and models that
/// may be asked for again are left out.
pub open spec fn seen_at(account: AccountStateView, at: u64) -> AccountStateView {
    AccountStateView {
        quotas: account.quotas.map_values(
            |window: Window| Window { used_percent: crate::quota::used(window, at), ..window },
        ),
        unavailable_models: crate::pool::current_models(account.unavailable_models, at),
        ..account
    }
}

/// A pool as it is at one time.
pub struct Snapshot {
    pub accounts: Vec<AccountState>,
    pub recent: Vec<RequestLog>,
    pub at: u64,
    pub routing_persistent: bool,
    pub routing_healthy: bool,
}

/// The windows of an account as they are at a given time.
fn windows_at(quotas: &Quotas, at: u64) -> (seen: Quotas)
    requires
        quotas.wf(),
    ensures
        seen.wf(),
        seen@ == quotas@.map_values(
            |window: Window| Window { used_percent: crate::quota::used(window, at), ..window },
        ),
{
    let ghost target = quotas@.map_values(
        |window: Window| Window { used_percent: crate::quota::used(window, at), ..window },
    );
    let ghost mut taken: Set<Seq<char>> = Set::empty();
    let mut seen: Quotas = Table::new();
    let mut i: usize = 0;
    assert(seen@ =~= target.restrict(taken));
    while i < quotas.len()
        invariant
            quotas.wf(),
            seen.wf(),
            i <= quotas.entries().len(),
            target == quotas@.map_values(
                |window: Window| Window { used_percent: crate::quota::used(window, at), ..window },
            ),
            forall|k: int| 0 <= k < i ==> taken.contains((#[trigger] quotas.entries()[k]).0),
            seen@ == target.restrict(taken),
        decreases quotas.entries().len() - i,
    {
        proof {
            quotas.rows_are_the_map();
        }
        let window: Window = *quotas.value(i);
        let ghost key = quotas.entries()[i as int].0;
        let now_used = window.used(at);
        seen.insert(
            owned(quotas.key(i)),
            Window {
                used_percent: now_used,
                reset_at: window.reset_at,
                window_minutes: window.window_minutes,
            },
        );
        proof {
            let next = taken.insert(key);
            assert(seen@ =~= target.restrict(next));
            taken = next;
        }
        i = i + 1;
    }
    proof {
        quotas.rows_are_the_map();
        assert(target.restrict(taken) =~= target) by {
            assert forall|key: Seq<char>| target.contains_key(key) implies taken.contains(key) by {
                assert(quotas@.contains_key(key));
                let k = choose|k: int|
                    0 <= k < quotas.entries().len() && (#[trigger] quotas.entries()[k]).0 == key;
                assert(taken.contains(quotas.entries()[k].0));
            }
        }
    }
    seen
}

/// The rejected models that are not to be asked for at a given time.
fn models_at(models: &Table<u64>, at: u64) -> (seen: Table<u64>)
    requires
        models.wf(),
    ensures
        seen.wf(),
        seen@ == crate::pool::current_models(models@, at),
{
    let ghost target = crate::pool::current_models(models@, at);
    let ghost mut taken: Set<Seq<char>> = Set::empty();
    let mut seen: Table<u64> = Table::new();
    let mut i: usize = 0;
    assert(seen@ =~= target.restrict(taken));
    while i < models.len()
        invariant
            models.wf(),
            seen.wf(),
            i <= models.entries().len(),
            target == crate::pool::current_models(models@, at),
            forall|k: int| 0 <= k < i ==> taken.contains((#[trigger] models.entries()[k]).0),
            seen@ == target.restrict(taken),
        decreases models.entries().len() - i,
    {
        proof {
            models.rows_are_the_map();
        }
        let until: u64 = *models.value(i);
        let ghost key = models.entries()[i as int].0;
        if until > at {
            seen.insert(owned(models.key(i)), until);
        }
        proof {
            let next = taken.insert(key);
            assert(seen@ =~= target.restrict(next));
            taken = next;
        }
        i = i + 1;
    }
    proof {
        models.rows_are_the_map();
        assert(target.restrict(taken) =~= target) by {
            assert forall|key: Seq<char>| target.contains_key(key) implies taken.contains(key) by {
                assert(models@.contains_key(key));
                let k = choose|k: int|
                    0 <= k < models.entries().len() && (#[trigger] models.entries()[k]).0 == key;
                assert(taken.contains(models.entries()[k].0));
            }
        }
    }
    seen
}

fn account_at(account: &AccountState, at: u64) -> (seen: AccountState)
    requires
        account.wf(),
    ensures
        seen.wf(),
        seen@ == seen_at(account@, at),
{
    let seen = AccountState {
        name: account.name.clone(),
        disabled: account.disabled,
        hold_until: account.hold_until,
        in_flight: account.in_flight,
        requests: account.requests,
        errors: account.errors,
        input_tokens: account.input_tokens,
        cached_tokens: account.cached_tokens,
        output_tokens: account.output_tokens,
        unmetered_requests: account.unmetered_requests,
        estimated_cost_usd: account.estimated_cost_usd,
        unpriced_requests: account.unpriced_requests,
        quotas: windows_at(&account.quotas, at),
        unavailable_models: models_at(&account.unavailable_models, at),
        last_error: copy_option(&account.last_error),
        last_probe: account.last_probe,
        last_probe_ok: account.last_probe_ok,
        threshold_percent: account.threshold_percent,
        reset_credits: account.reset_credits,
        resets: account.resets,
        last_reset: account.last_reset,
        reset_retry_at: account.reset_retry_at,
        selected: account.selected,
        removed: account.removed,
    };
    assert(seen@ =~= seen_at(account@, at));
    seen
}

impl Pool {
    /// Whether every account that a request could go to lacks access to its model at a given time.
    /// Limits and holds do not count: they are a lack of capacity.
    pub fn model_unavailable_at(
        &self,
        model: &str,
        group: Option<&str>,
        pinned: Option<usize>,
        at: u64,
    ) -> (yes: bool)
        requires
            self.wf(),
        ensures
            yes == self@.model_closed(model@, crate::json::read(group), pinned, at),
    {
        if model.unicode_len() == 0 {
            return false;
        }
        let ghost asked = crate::json::read(group);
        let mut any = false;
        let mut i: usize = 0;
        while i < self.config.accounts.len()
            invariant
                self.wf(),
                model@.len() > 0,
                asked == crate::json::read(group),
                i <= self.config.accounts@.len(),
                any == exists|k: int| k < i && #[trigger] self@.matched(k, asked, pinned),
                forall|k: int|
                    k < i && #[trigger] self@.matched(k, asked, pinned) ==> !self@.has_access(
                        k,
                        model@,
                        at,
                    ),
            decreases self.config.accounts@.len() - i,
        {
            let account = &self.config.accounts[i];
            assert(self@.config.accounts[i as int] == account@);
            assert(self@.state.accounts[i as int] == self.state.accounts@[i as int]@);
            let pin = match pinned {
                Some(pin) => pin == i,
                None => true,
            };
            let ghost before = any;
            if pin && belongs(account, group) {
                assert(self@.matched(i as int, asked, pinned));
                if may_serve(account, model) && is_open(&self.state.accounts[i], model, at) {
                    return false;
                }
                any = true;
            }
            assert(any == exists|k: int| k < i + 1 && #[trigger] self@.matched(k, asked, pinned))
                by {
                if before {
                    let k = choose|k: int| k < i && #[trigger] self@.matched(k, asked, pinned);
                    assert(k < i + 1);
                }
            }
            i = i + 1;
        }
        any
    }

    /// Whether every account that a request could go to lacks access to its model.
    pub fn model_unavailable(
        &self,
        model: &str,
        group: Option<&str>,
        pinned: Option<usize>,
    ) -> (yes: bool)
        requires
            self.wf(),
        ensures
            exists|at: u64|
                yes == #[trigger] self@.model_closed(
                    model@,
                    crate::json::read(group),
                    pinned,
                    at,
                ),
    {
        let at: u64 = now();
        self.model_unavailable_at(model, group, pinned, at)
    }

    /// Whether a reset credit of an account may be redeemed at a given time without being asked
    /// for.
    pub fn auto_reset_ready(&self, idx: usize, at: u64) -> (yes: bool)
        requires
            self.wf(),
        ensures
            yes == self@.reset_ready(idx as int, at),
    {
        if idx >= self.config.accounts.len() {
            return false;
        }
        let account = &self.config.accounts[idx];
        let state = &self.state.accounts[idx];
        assert(self@.config.accounts[idx as int] == account@);
        assert(self@.state.accounts[idx as int] == state@);
        let credits = match state.reset_credits {
            Some(count) => count != 0,
            None => true,
        };
        account.auto_reset && account.reset_credits().is_some() && state.reset_retry_at <= at
            && credits
    }

    /// The account whose reset credit is to be redeemed for a request that no account can serve.
    pub fn auto_reset_candidate(
        &self,
        model: &str,
        group: Option<&str>,
        pinned: Option<usize>,
        at: u64,
    ) -> (idx: Option<usize>)
        requires
            self.wf(),
        ensures
            match idx {
                Some(found) => self@.reset_candidate(
                    found as int,
                    crate::select::first_ask(model, group, pinned, at),
                ),
                None => forall|i: int|
                    !#[trigger] self@.reset_candidate(
                        i,
                        crate::select::first_ask(model, group, pinned, at),
                    ),
            },
    {
        let ghost question = crate::select::first_ask(model, group, pinned, at);
        let keys = keys_for(model, self.limit_ids(model));
        let tried: Vec<usize> = Vec::new();
        assert(tried@ =~= Seq::empty());
        let mut found: Option<usize> = None;
        let mut i: usize = 0;
        while i < self.state.accounts.len()
            invariant
                self.wf(),
                i <= self.state.accounts@.len(),
                tried@ == Seq::<usize>::empty(),
                question == crate::select::first_ask(model, group, pinned, at),
                crate::text::views(keys@) == crate::select::relevant_keys(
                    model@,
                    self@.limits(model@),
                ),
                found matches Some(idx) ==> idx < i && self@.only_limited(idx as int, question),
                forall|k: int|
                    k < i && #[trigger] self@.only_limited(k, question) ==> found == Some(
                        k as usize,
                    ),
            decreases self.state.accounts@.len() - i,
        {
            assert(self@.state.accounts[i as int] == self.state.accounts@[i as int]@);
            if self.is_candidate(i, model, group, pinned, tried.as_slice(), at) && is_at_threshold(
                &self.state.accounts[i],
                &keys,
                at,
            ) {
                assert(self@.only_limited(i as int, question));
                if let Some(other) = found {
                    assert forall|k: int| !#[trigger] self@.reset_candidate(k, question) by {
                        if self@.reset_candidate(k, question) {
                            assert(self@.only_limited(i as int, question));
                            assert(self@.only_limited(other as int, question));
                        }
                    }
                    return None;
                }
                found = Some(i);
            }
            i = i + 1;
        }
        match found {
            Some(idx) => if self.auto_reset_ready(idx, at) {
                Some(idx)
            } else {
                assert forall|k: int| !#[trigger] self@.reset_candidate(k, question) by {
                    if self@.reset_candidate(k, question) {
                        assert(self@.only_limited(k, question));
                    }
                }
                None
            },
            None => {
                assert forall|k: int| !#[trigger] self@.reset_candidate(k, question) by {
                    if self@.reset_candidate(k, question) {
                        assert(self@.only_limited(k, question));
                    }
                }
                None
            },
        }
    }

    /// The seconds until an account may become eligible, as known at a given time.
    pub fn retry_seconds_at(&self, at: u64) -> (seconds: u64)
        requires
            self.wf(),
        ensures
            self@.is_wait(at, seconds),
            seconds >= 1,
    {
        let mut found: Option<u64> = None;
        let mut i: usize = 0;
        while i < self.state.accounts.len()
            invariant
                self.wf(),
                i <= self.state.accounts@.len(),
                found matches Some(time) ==> self@.wakes(at, time),
                forall|k: int, time: u64|
                    #![trigger account_wakes(self@.state.accounts[k], at, time)]
                    0 <= k < i && time > at && account_wakes(self@.state.accounts[k], at, time) ==> (
                    found matches Some(first) && first <= time),
            decreases self.state.accounts@.len() - i,
        {
            assert(self@.state.accounts[i as int] == self.state.accounts@[i as int]@);
            if let Some(time) = account_wake(&self.state.accounts[i], at) {
                assert(account_wakes(self@.state.accounts[i as int], at, time));
                assert(self@.wakes(at, time));
                found = least(found, time);
            }
            i = i + 1;
        }
        proof {
            assert forall|time: u64| #[trigger] self@.wakes(at, time) implies (found matches Some(
                first,
            ) && first <= time) by {
                let k = choose|k: int|
                    0 <= k < self@.state.accounts.len() && account_wakes(
                        #[trigger] self@.state.accounts[k],
                        at,
                        time,
                    );
                assert(account_wakes(self@.state.accounts[k], at, time));
            }
        }
        match found {
            Some(time) => time - at,
            None => DEFAULT_WAIT,
        }
    }

    /// The seconds until an account may become eligible.
    pub fn retry_seconds(&self) -> (seconds: u64)
        requires
            self.wf(),
        ensures
            exists|at: u64| #[trigger] self@.is_wait(at, seconds),
            seconds >= 1,
    {
        let at: u64 = now();
        self.retry_seconds_at(at)
    }

    /// The hold that ends first, and its reason.
    pub fn active_hold(&self, at: u64) -> (hold: Option<(u64, String)>)
        requires
            self.wf(),
        ensures
            match hold {
                Some((until, reason)) => exists|i: int|
                    {
                        &&& #[trigger] self@.first_hold(i, at)
                        &&& until == self@.state.accounts[i].hold_until
                        &&& reason@ == match self@.state.accounts[i].last_error {
                            Some(error) => error,
                            None => Seq::empty(),
                        }
                    },
                None => forall|i: int| !#[trigger] self@.on_hold(i, at),
            },
    {
        let mut found: Option<usize> = None;
        let mut i: usize = 0;
        while i < self.state.accounts.len()
            invariant
                self.wf(),
                i <= self.state.accounts@.len(),
                found matches Some(idx) ==> idx < i && self@.on_hold(idx as int, at),
                forall|k: int|
                    k < i && #[trigger] self@.on_hold(k, at) ==> (found matches Some(idx) && (
                    self@.state.accounts[idx as int].hold_until < self@.state.accounts[k].hold_until
                        || (self@.state.accounts[idx as int].hold_until
                        == self@.state.accounts[k].hold_until && idx <= k))),
            decreases self.state.accounts@.len() - i,
        {
            assert(self@.state.accounts[i as int] == self.state.accounts@[i as int]@);
            if !self.state.accounts[i].disabled && self.state.accounts[i].hold_until > at {
                assert(self@.on_hold(i as int, at));
                let earlier = match found {
                    Some(idx) => {
                        assert(self@.state.accounts[idx as int] == self.state.accounts@[idx as int]@);
                        self.state.accounts[i].hold_until < self.state.accounts[idx].hold_until
                    },
                    None => true,
                };
                if earlier {
                    found = Some(i);
                }
            }
            i = i + 1;
        }
        match found {
            Some(idx) => {
                assert(self@.state.accounts[idx as int] == self.state.accounts@[idx as int]@);
                assert(self@.first_hold(idx as int, at));
                let account = &self.state.accounts[idx];
                let reason = match &account.last_error {
                    Some(error) => error.clone(),
                    None => String::new(),
                };
                Some((account.hold_until, reason))
            },
            None => None,
        }
    }

    /// The earliest time after `at` at which a limit of an account that is not disabled resets.
    pub fn quota_reset_at(&self, at: u64) -> (found: Option<u64>)
        requires
            self.wf(),
        ensures
            match found {
                Some(time) => self@.quota_resets(at, time) && forall|other: u64| #[trigger]
                    self@.quota_resets(at, other) ==> time <= other,
                None => forall|other: u64| !#[trigger] self@.quota_resets(at, other),
            },
    {
        let mut found: Option<u64> = None;
        let mut i: usize = 0;
        while i < self.state.accounts.len()
            invariant
                self.wf(),
                i <= self.state.accounts@.len(),
                found matches Some(time) ==> self@.quota_resets(at, time),
                forall|k: int, time: u64|
                    #![trigger limit_resets(self@.state.accounts[k], at, time)]
                    0 <= k < i && time > at && !self@.state.accounts[k].disabled && limit_resets(
                        self@.state.accounts[k],
                        at,
                        time,
                    ) ==> (found matches Some(first) && first <= time),
            decreases self.state.accounts@.len() - i,
        {
            assert(self@.state.accounts[i as int] == self.state.accounts@[i as int]@);
            if !self.state.accounts[i].disabled {
                if let Some(time) = limit_reset(&self.state.accounts[i], at) {
                    assert(limit_resets(self@.state.accounts[i as int], at, time));
                    assert(self@.quota_resets(at, time));
                    found = least(found, time);
                }
            }
            i = i + 1;
        }
        proof {
            assert forall|time: u64| #[trigger] self@.quota_resets(at, time) implies (found
                matches Some(first) && first <= time) by {
                let k = choose|k: int|
                    0 <= k < self@.state.accounts.len() && !(
                    #[trigger] self@.state.accounts[k]).disabled && limit_resets(
                        self@.state.accounts[k],
                        at,
                        time,
                    );
                assert(limit_resets(self@.state.accounts[k], at, time));
            }
        }
        found
    }

    /// The pool as it is at a given time.
    pub fn snapshot_at(&self, at: u64) -> (snapshot: Snapshot)
        requires
            self.wf(),
        ensures
            crate::pool::state_views(snapshot.accounts@) == self@.state.accounts.map_values(
                |account: AccountStateView| seen_at(account, at),
            ),
            crate::pool::log_views(snapshot.recent@) == self@.state.recent,
            snapshot.at == at,
            snapshot.routing_persistent == self@.state.routing.persistent,
            snapshot.routing_healthy == !self@.state.routing.failed,
            forall|i: int|
                0 <= i < snapshot.accounts@.len() ==> (#[trigger] snapshot.accounts@[i]).wf(),
    {
        let ghost target = self@.state.accounts.map_values(
            |account: AccountStateView| seen_at(account, at),
        );
        let mut accounts: Vec<AccountState> = Vec::new();
        let mut i: usize = 0;
        while i < self.state.accounts.len()
            invariant
                self.wf(),
                i <= self.state.accounts@.len(),
                accounts@.len() == i,
                forall|k: int|
                    0 <= k < i ==> (#[trigger] accounts@[k]).wf() && accounts@[k]@ == seen_at(
                        self@.state.accounts[k],
                        at,
                    ),
            decreases self.state.accounts@.len() - i,
        {
            assert(self@.state.accounts[i as int] == self.state.accounts@[i as int]@);
            accounts.push(account_at(&self.state.accounts[i], at));
            i = i + 1;
        }
        assert(crate::pool::state_views(accounts@) =~= target);
        let mut recent: Vec<RequestLog> = Vec::new();
        let mut j: usize = 0;
        while j < self.state.recent.len()
            invariant
                j <= self.state.recent@.len(),
                recent@.len() == j,
                forall|k: int| 0 <= k < j ==> (#[trigger] recent@[k])@ == self.state.recent@[k]@,
            decreases self.state.recent@.len() - j,
        {
            let log = &self.state.recent[j];
            recent.push(
                RequestLog {
                    at: log.at,
                    account: log.account.clone(),
                    status: log.status,
                    outcome: log.outcome.clone(),
                },
            );
            j = j + 1;
        }
        assert(crate::pool::log_views(recent@) =~= self@.state.recent);
        Snapshot {
            accounts,
            recent,
            at,
            routing_persistent: self.state.routing.persistent(),
            routing_healthy: self.state.routing.healthy(),
        }
    }

    /// The pool as it is now.
    pub fn snapshot(&self) -> (snapshot: Snapshot)
        requires
            self.wf(),
        ensures
            crate::pool::state_views(snapshot.accounts@) == self@.state.accounts.map_values(
                |account: AccountStateView| seen_at(account, snapshot.at),
            ),
            crate::pool::log_views(snapshot.recent@) == self@.state.recent,
            snapshot.routing_persistent == self@.state.routing.persistent,
            snapshot.routing_healthy == !self@.state.routing.failed,
            forall|i: int|
                0 <= i < snapshot.accounts@.len() ==> (#[trigger] snapshot.accounts@[i]).wf(),
    {
        let at: u64 = now();
        self.snapshot_at(at)
    }
}

/// There is one wait.
pub proof fn wait_is_unique(pool: PoolView, at: u64, a: u64, b: u64)
    requires
        pool.is_wait(at, a),
        pool.is_wait(at, b),
    ensures
        a == b,
{
    if exists|time: u64| pool.wakes(at, time) {
        let first = choose|time: u64|
            {
                &&& #[trigger] pool.wakes(at, time)
                &&& a == time - at
                &&& forall|other: u64| #[trigger] pool.wakes(at, other) ==> time <= other
            };
        let second = choose|time: u64|
            {
                &&& #[trigger] pool.wakes(at, time)
                &&& b == time - at
                &&& forall|other: u64| #[trigger] pool.wakes(at, other) ==> time <= other
            };
        assert(pool.wakes(at, first));
        assert(pool.wakes(at, second));
    }
}

/// A credit is redeemed unasked only for an account that opted in, and not again before the time up
/// to which resets were put off.
pub proof fn unasked_resets_are_opted_in_and_spaced(pool: PoolView, i: int, ask: Ask)
    requires
        pool.reset_candidate(i, ask),
    ensures
        pool.config.accounts[i].auto_reset,
        pool.state.accounts[i].reset_retry_at <= ask.at,
        pool.state.accounts[i].reset_credits != Some(0i64),
        !pool.eligible(i, ask),
{
}

/// Of two accounts that only their limits keep from serving a request, neither spends a credit
/// unasked.
pub proof fn two_limited_accounts_spend_no_credit(pool: PoolView, i: int, j: int, k: int, ask: Ask)
    requires
        pool.only_limited(i, ask),
        pool.only_limited(j, ask),
        i != j,
    ensures
        !pool.reset_candidate(k, ask),
{
}

/// Where a model is closed to a request, no account can serve the request.
pub proof fn closed_model_is_not_served(pool: PoolView, i: int, ask: Ask)
    requires
        pool.wf(),
        pool.model_closed(ask.model, ask.group, ask.pinned, ask.at),
    ensures
        !pool.eligible(i, ask),
{
    if pool.eligible(i, ask) {
        assert(pool.matched(i, ask.group, ask.pinned));
    }
}

/// The wait that a refused request is told ends at the first of: the end of a hold, the return of a
/// rejected model, the reset of a window at its threshold. Where none is ahead it is half a minute.
pub proof fn wait_ends_with_the_first_return(
    pool: PoolView,
    at: u64,
    seconds: u64,
    i: int,
    model: Seq<char>,
    key: Seq<char>,
)
    requires
        pool.is_wait(at, seconds),
        0 <= i < pool.state.accounts.len(),
    ensures
        ({
            let account = pool.state.accounts[i];
            &&& account.hold_until > at ==> seconds <= account.hold_until - at
            &&& account.unavailable_models.contains_key(model) && account.unavailable_models[model]
                > at ==> seconds <= account.unavailable_models[model] - at
            &&& crate::select::at_threshold(account, key, at) && account.quotas[key].reset_at
                is Some && account.quotas[key].reset_at->Some_0 > at ==> seconds
                <= account.quotas[key].reset_at->Some_0 - at
        }),
        seconds > 0,
        seconds == 30 || pool.wakes(at, (at + seconds) as u64),
{
    let account = pool.state.accounts[i];
    if account.hold_until > at {
        assert(account_wakes(account, at, account.hold_until));
        assert(pool.wakes(at, account.hold_until));
    }
    if account.unavailable_models.contains_key(model) && account.unavailable_models[model] > at {
        let time = account.unavailable_models[model];
        assert(account_wakes(account, at, time));
        assert(pool.wakes(at, time));
    }
    if crate::select::at_threshold(account, key, at) && account.quotas[key].reset_at is Some
        && account.quotas[key].reset_at->Some_0 > at {
        let time = account.quotas[key].reset_at->Some_0;
        assert(limit_resets(account, at, time));
        assert(account_wakes(account, at, time));
        assert(pool.wakes(at, time));
    }
}

/// What is shown of an account: a window that has reset shows no use, and a rejected model that may
/// be asked again is not shown; all else is shown as it is.
pub proof fn accounts_are_shown_as_they_are_now(
    account: AccountStateView,
    at: u64,
    key: Seq<char>,
    model: Seq<char>,
)
    ensures
        ({
            let shown = seen_at(account, at);
            &&& shown.quotas.contains_key(key) <==> account.quotas.contains_key(key)
            &&& account.quotas.contains_key(key) ==> {
                let before = account.quotas[key];
                let after = shown.quotas[key];
                &&& after.reset_at == before.reset_at
                &&& after.window_minutes == before.window_minutes
                &&& before.reset_at is Some && before.reset_at->Some_0 <= at
                    ==> after.used_percent.bits == 0
                &&& before.reset_at is None || before.reset_at->Some_0 > at ==> after.used_percent
                    == before.used_percent
            }
            &&& shown.unavailable_models.contains_key(model)
                <==> account.unavailable_models.contains_key(model)
                && account.unavailable_models[model] > at
            &&& shown.requests == account.requests && shown.errors == account.errors
            &&& shown.hold_until == account.hold_until && shown.disabled == account.disabled
            &&& shown.input_tokens == account.input_tokens && shown.output_tokens
                == account.output_tokens
            &&& shown.last_error == account.last_error && shown.name == account.name
        }),
{
}

/// A model is closed to a request exactly where it names one, some account is its match, and each
/// match either may not serve the model or has rejected it.
pub proof fn closed_models_have_no_account(
    pool: PoolView,
    model: Seq<char>,
    group: Option<Seq<char>>,
    pinned: Option<usize>,
    at: u64,
    i: int,
)
    requires
        pool.wf(),
        0 <= i < pool.config.accounts.len(),
        pinned is None || pinned->Some_0 == i,
        match group {
            Some(name) => pool.config.accounts[i].groups.contains(name),
            None => pool.config.accounts[i].groups.len() == 0,
        },
        pool.config.accounts[i].models.len() == 0 || pool.config.accounts[i].models.contains(model),
        !pool.state.accounts[i].unavailable_models.contains_key(model)
            || pool.state.accounts[i].unavailable_models[model] <= at,
    ensures
        !pool.model_closed(model, group, pinned, at),
{
    assert(pool.matched(i, group, pinned));
    assert(pool.has_access(i, model, at));
}

/// An account is on hold while it is on and its hold lasts; the first hold is the one that ends
/// soonest, of equals that of the account that stands first.
pub proof fn holds_end_in_order(pool: PoolView, i: int, j: int, at: u64)
    ensures
        pool.on_hold(i, at) <==> 0 <= i < pool.state.accounts.len()
            && !pool.state.accounts[i].disabled && pool.state.accounts[i].hold_until > at,
        pool.first_hold(i, at) && pool.on_hold(j, at) ==> pool.state.accounts[i].hold_until
            <= pool.state.accounts[j].hold_until,
        pool.first_hold(i, at) && pool.on_hold(j, at) && pool.state.accounts[i].hold_until
            == pool.state.accounts[j].hold_until ==> i <= j,
        pool.first_hold(i, at) ==> pool.on_hold(i, at),
{
}

/// A model is closed exactly where a request names it, an account matches the request, and every
/// such account either does not serve the model or has rejected it.
pub proof fn model_is_closed_where_all_reject_it(
    pool: PoolView,
    model: Seq<char>,
    group: Option<Seq<char>>,
    pinned: Option<usize>,
    at: u64,
    i: int,
)
    requires
        pool.wf(),
        model.len() > 0,
        0 <= i < pool.config.accounts.len(),
        pinned is Some ==> pinned->Some_0 == i,
        crate::select::in_group(pool.config.accounts[i], group),
        forall|k: int|
            0 <= k < pool.config.accounts.len() && (pinned is Some ==> pinned->Some_0 == k)
                && crate::select::in_group(#[trigger] pool.config.accounts[k], group) ==> {
                ||| pool.config.accounts[k].models.len() > 0
                    && !pool.config.accounts[k].models.contains(model)
                ||| pool.state.accounts[k].unavailable_models.contains_key(model)
                    && pool.state.accounts[k].unavailable_models[model] > at
            },
    ensures
        pool.model_closed(model, group, pinned, at),
        !pool.model_closed(Seq::empty(), group, pinned, at),
{
    assert(pool.matched(i, group, pinned));
    assert forall|k: int| #[trigger] pool.matched(k, group, pinned) implies !pool.has_access(
        k,
        model,
        at,
    ) by {
        assert(crate::select::in_group(pool.config.accounts[k], group));
    }
}

/// A limit resets at the times at which windows that are at the threshold of an account that is on
/// reset.
pub proof fn limits_reset_with_their_windows(
    pool: PoolView,
    at: u64,
    time: u64,
    i: int,
    key: Seq<char>,
)
    requires
        0 <= i < pool.state.accounts.len(),
        !pool.state.accounts[i].disabled,
        pool.state.accounts[i].quotas.contains_key(key),
        pool.state.accounts[i].quotas[key].reset_at == Some(time),
        time > at,
        pool.state.accounts[i].quotas[key].used_percent.rank()
            >= pool.state.accounts[i].threshold_percent.rank(),
    ensures
        pool.quota_resets(at, time),
{
    assert(crate::select::at_threshold(pool.state.accounts[i], key, at));
    assert(limit_resets(pool.state.accounts[i], at, time));
}

/// Nothing else ends a wait: a time at which the pool wakes is ahead, and is the end of a hold, the
/// return of a rejected model or the reset of a window at its threshold, of an account of the pool.
pub proof fn waits_end_for_a_reason(pool: PoolView, at: u64, time: u64)
    ensures
        pool.wakes(at, time) ==> time > at && exists|i: int|
            0 <= i < pool.state.accounts.len() && {
                let account = #[trigger] pool.state.accounts[i];
                ||| account.hold_until == time
                ||| exists|model: Seq<char>|
                    account.unavailable_models.contains_key(model)
                        && #[trigger] account.unavailable_models[model] == time
                ||| limit_resets(account, at, time)
            },
        pool.quota_resets(at, time) ==> time > at && exists|i: int|
            0 <= i < pool.state.accounts.len() && !(#[trigger] pool.state.accounts[i]).disabled
                && limit_resets(pool.state.accounts[i], at, time),
{
    if pool.wakes(at, time) {
        let i = choose|i: int|
            0 <= i < pool.state.accounts.len() && account_wakes(
                #[trigger] pool.state.accounts[i],
                at,
                time,
            );
        assert(account_wakes(pool.state.accounts[i], at, time));
    }
}

/// A limit that resets is that of a window which is at the threshold of its account.
pub proof fn limits_that_reset_are_hit(account: AccountStateView, at: u64, time: u64)
    requires
        limit_resets(account, at, time),
    ensures
        exists|key: Seq<char>| #[trigger]
            account.quotas.contains_key(key) && account.quotas[key].reset_at == Some(time)
                && crate::quota::used(account.quotas[key], at).rank()
                >= account.threshold_percent.rank(),
{
    let key = choose|key: Seq<char>| #[trigger]
        crate::select::at_threshold(account, key, at) && account.quotas[key].reset_at == Some(time);
    assert(account.quotas.contains_key(key));
}

} // verus!
