//! Which account serves a request.
//!
//! An established session stays on its account while that account is eligible. Other requests go
//! to the eligible account of the lowest priority, then of the fewest active requests, then of
//! the earliest known reset, then of the least recent selection.
use crate::affinity::Kind as RouteKind;
use crate::affinity::Plan;
use crate::affinity::Record;
use crate::affinity::RecordView;
use crate::config::Account;
use crate::identity::hash_text;
use crate::identity::session_binding;
use crate::now;
use crate::pool::AccountState;
use crate::pool::AccountStateView;
use crate::pool::Pool;
use crate::pool::PoolView;
use crate::pool::StateView;
use crate::quota::normalize;
use crate::quota::Quotas;
use crate::quota::Window;
use crate::quota::Windows;
use crate::text::any_same;
use crate::text::concat;
use crate::text::concat3;
use crate::text::owned;
use crate::text::same;
use vstd::prelude::*;
use vstd::string::*;

verus! {

/// What a request asks of the pool: the model, the group, the account that it is pinned to, the
/// accounts that have been tried, and when.
pub struct Ask {
    pub model: Seq<char>,
    pub group: Option<Seq<char>>,
    pub pinned: Option<usize>,
    pub tried: Seq<usize>,
    pub at: u64,
}

/// The names of the windows of an additional limit.
pub open spec fn limit_keys(ids: Seq<Seq<char>>) -> Seq<Seq<char>>
    decreases ids.len(),
{
    if ids.len() == 0 {
        Seq::empty()
    } else {
        let name = crate::quota::normalized(ids.last());
        limit_keys(ids.drop_last()).push(name + "-primary"@).push(name + "-secondary"@)
    }
}

/// The names of the windows that a request for a model has to respect: those of Codex, those of
/// the API for the model, and those of the limits configured for it.
pub open spec fn relevant_keys(model: Seq<char>, limits: Option<Seq<Seq<char>>>) -> Seq<Seq<char>> {
    seq![
        "codex-primary"@,
        "codex-secondary"@,
        "api:"@ + model + ":requests"@,
        "api:"@ + model + ":tokens"@,
        "api:"@ + model + ":project-tokens"@,
    ] + match limits {
        Some(ids) => limit_keys(ids),
        None => Seq::empty(),
    }
}

/// A window with this name is used up to the threshold of the account.
pub open spec fn at_threshold(account: AccountStateView, key: Seq<char>, at: u64) -> bool {
    account.quotas.contains_key(key) && crate::quota::used(account.quotas[key], at).rank()
        >= account.threshold_percent.rank()
}

/// A window of these names is used up to the threshold of the account.
pub open spec fn any_at_threshold(
    account: AccountStateView,
    keys: Seq<Seq<char>>,
    at: u64,
) -> bool {
    exists|k: int| 0 <= k < keys.len() && at_threshold(account, #[trigger] keys[k], at)
}

/// The account may be asked for a model.
pub open spec fn model_is_open(account: AccountStateView, model: Seq<char>, at: u64) -> bool {
    !account.unavailable_models.contains_key(model) || account.unavailable_models[model] <= at
}

/// The configuration lets an account serve a model.
pub open spec fn allows_model(account: crate::config::AccountView, model: Seq<char>) -> bool {
    account.models.len() == 0 || account.models.contains(model)
}

/// The account belongs to the group, or to none where none is asked for.
pub open spec fn in_group(account: crate::config::AccountView, group: Option<Seq<char>>) -> bool {
    match group {
        Some(name) => account.groups.contains(name),
        None => account.groups.len() == 0,
    }
}

/// A window of the account that has a reset to come.
pub open spec fn resets_later(quotas: Windows, key: Seq<char>, at: u64) -> bool {
    quotas.contains_key(key) && has_reset_after(quotas[key], at)
}

/// The window has a reset to come.
pub open spec fn has_reset_after(window: Window, at: u64) -> bool {
    window.reset_at matches Some(reset) && reset > at
}

/// This is the earliest reset to come, or the end of time where there is none.
pub open spec fn is_next_reset(quotas: Windows, at: u64, reset: u64) -> bool {
    if exists|key: Seq<char>| resets_later(quotas, key, at) {
        &&& exists|key: Seq<char>|
            resets_later(quotas, key, at) && #[trigger] quotas[key].reset_at == Some(reset)
        &&& forall|key: Seq<char>| #[trigger]
            resets_later(quotas, key, at) ==> reset <= quotas[key].reset_at->Some_0
    } else {
        reset == u64::MAX
    }
}

/// The earliest reset to come, or the end of time where there is none.
pub open spec fn next_reset(quotas: Windows, at: u64) -> u64 {
    choose|reset: u64| is_next_reset(quotas, at, reset)
}

/// What accounts are ordered by.
#[derive(Clone, Copy, PartialEq, Eq, Structural)]
pub struct Rank {
    pub priority: i32,
    pub in_flight: u64,
    pub reset: u64,
    pub selected: u64,
}

/// One rank goes before another.
pub open spec fn rank_less(a: Rank, b: Rank) -> bool {
    a.priority < b.priority || (a.priority == b.priority && (a.in_flight < b.in_flight || (
    a.in_flight == b.in_flight && (a.reset < b.reset || (a.reset == b.reset && a.selected
        < b.selected)))))
}

impl PoolView {
    /// The additional limits of a model.
    pub open spec fn limits(self, model: Seq<char>) -> Option<Seq<Seq<char>>> {
        if self.config.settings.model_limits.contains_key(model) {
            Some(self.config.settings.model_limits[model])
        } else {
            None
        }
    }

    /// A window that the model has to respect is used up to the threshold.
    pub open spec fn limited(self, i: int, model: Seq<char>, at: u64) -> bool {
        any_at_threshold(
            self.state.accounts[i],
            relevant_keys(model, self.limits(model)),
            at,
        )
    }

    /// The account could serve the request, but for its limits.
    pub open spec fn candidate(self, i: int, ask: Ask) -> bool {
        let state = self.state.accounts[i];
        let account = self.config.accounts[i];
        &&& 0 <= i < self.state.accounts.len()
        &&& !state.disabled
        &&& state.hold_until <= ask.at
        &&& model_is_open(state, ask.model, ask.at)
        &&& !ask.tried.contains(i as usize)
        &&& ask.pinned matches Some(pin) ==> pin == i
        &&& ask.model.len() == 0 || allows_model(account, ask.model)
        &&& in_group(account, ask.group)
    }

    /// The account can serve the request.
    pub open spec fn eligible(self, i: int, ask: Ask) -> bool {
        self.candidate(i, ask) && !self.limited(i, ask.model, ask.at)
    }

    /// What an account is ordered by.
    pub open spec fn rank(self, i: int, at: u64) -> Rank {
        let state = self.state.accounts[i];
        Rank {
            priority: self.config.accounts[i].priority,
            in_flight: state.in_flight,
            reset: next_reset(state.quotas, at),
            selected: state.selected,
        }
    }

    /// One account goes before another, or is the other.
    pub open spec fn precedes(self, i: int, j: int, at: u64) -> bool {
        rank_less(self.rank(i, at), self.rank(j, at)) || (self.rank(i, at) == self.rank(j, at) && i
            <= j)
    }

    /// The account goes before every other that can serve the request.
    pub open spec fn best(self, i: int, ask: Ask) -> bool {
        &&& self.eligible(i, ask)
        &&& forall|j: int| #[trigger] self.eligible(j, ask) ==> self.precedes(i, j, ask.at)
    }

    /// The account that a key is bound to, the first one where several have the binding.
    pub open spec fn bound(self, kind: RouteKind, key: Seq<char>, at: u64) -> Option<int> {
        match self.state.routing.get(kind, key, at) {
            Some(binding) => first_binding(self.bindings, binding),
            None => None,
        }
    }

    /// The account that serves the request: the one that the session is bound to where it can,
    /// else the best.
    pub open spec fn chosen(self, i: int, session: Option<Seq<char>>, ask: Ask) -> bool {
        let affinity = match session {
            Some(key) => self.bound(RouteKind::Session, key, ask.at),
            None => None,
        };
        match affinity {
            Some(idx) if self.eligible(idx, ask) => i == idx,
            _ => self.best(i, ask),
        }
    }

    /// The pool once an account was chosen for a session. Selections are numbered, up to the
    /// greatest number that there is.
    pub open spec fn with_selection(self, i: int, session: Option<Seq<char>>, at: u64) -> PoolView {
        let sequence = crate::affinity::later(self.state.sequence, 1);
        let account = self.state.accounts[i];
        PoolView {
            state: StateView {
                accounts: self.state.accounts.update(
                    i,
                    AccountStateView {
                        in_flight: account.in_flight.wrapping_add(1),
                        selected: sequence,
                        ..account
                    },
                ),
                routing: match session {
                    Some(key) => self.state.routing.remember(
                        RouteKind::Session,
                        key,
                        self.bindings[i],
                        true,
                        at,
                    ),
                    None => self.state.routing,
                },
                sequence,
                ..self.state
            },
            ..self
        }
    }
}

/// The first position of a binding.
pub open spec fn first_binding(bindings: Seq<Seq<char>>, binding: Seq<char>) -> Option<int>
    decreases bindings.len(),
{
    if bindings.len() == 0 {
        None
    } else {
        match first_binding(bindings.drop_last(), binding) {
            Some(idx) => Some(idx),
            None => if bindings.last() == binding {
                Some(bindings.len() - 1)
            } else {
                None
            },
        }
    }
}

pub(crate) proof fn lemma_no_binding(bindings: Seq<Seq<char>>, binding: Seq<char>)
    requires
        forall|i: int| 0 <= i < bindings.len() ==> #[trigger] bindings[i] != binding,
    ensures
        first_binding(bindings, binding) is None,
    decreases bindings.len(),
{
    if bindings.len() > 0 {
        let rest = bindings.drop_last();
        assert forall|i: int| 0 <= i < rest.len() implies #[trigger] rest[i] != binding by {
            assert(rest[i] == bindings[i]);
        }
        lemma_no_binding(rest, binding);
        assert(bindings[bindings.len() - 1] != binding);
    }
}

pub(crate) proof fn lemma_first_binding(bindings: Seq<Seq<char>>, binding: Seq<char>, idx: int)
    requires
        0 <= idx < bindings.len(),
        bindings[idx] == binding,
        forall|i: int| 0 <= i < idx ==> #[trigger] bindings[i] != binding,
    ensures
        first_binding(bindings, binding) == Some(idx),
    decreases bindings.len(),
{
    let rest = bindings.drop_last();
    if idx < rest.len() {
        lemma_first_binding(rest, binding, idx);
    } else {
        assert forall|i: int| 0 <= i < rest.len() implies #[trigger] rest[i] != binding by {
            assert(rest[i] == bindings[i]);
        }
        lemma_no_binding(rest, binding);
    }
}

/// What the exec arguments of a request say.
pub open spec fn ask(
    model: &str,
    group: Option<&str>,
    pinned: Option<usize>,
    tried: &[usize],
    at: u64,
) -> Ask {
    Ask { model: model@, group: crate::json::read(group), pinned, tried: tried@, at }
}

/// What a request says before any account has been tried.
pub open spec fn first_ask(
    model: &str,
    group: Option<&str>,
    pinned: Option<usize>,
    at: u64,
) -> Ask {
    Ask { model: model@, group: crate::json::read(group), pinned, tried: Seq::empty(), at }
}

/// The names of the windows that a request for a model has to respect.
pub(crate) fn keys_for(model: &str, limits: Option<&Vec<String>>) -> (keys: Vec<String>)
    ensures
        crate::text::views(keys@) == relevant_keys(
            model@,
            match limits {
                Some(ids) => Some(crate::text::views(ids@)),
                None => None,
            },
        ),
{
    let mut keys: Vec<String> = Vec::new();
    keys.push(owned("codex-primary"));
    keys.push(owned("codex-secondary"));
    keys.push(concat3("api:", model, ":requests"));
    keys.push(concat3("api:", model, ":tokens"));
    keys.push(concat3("api:", model, ":project-tokens"));
    let ghost fixed = seq![
        "codex-primary"@,
        "codex-secondary"@,
        "api:"@ + model@ + ":requests"@,
        "api:"@ + model@ + ":tokens"@,
        "api:"@ + model@ + ":project-tokens"@,
    ];
    assert(crate::text::views(keys@) =~= fixed);
    match limits {
        Some(ids) => {
            let ghost all = crate::text::views(ids@);
            let mut i: usize = 0;
            assert(fixed + limit_keys(all.take(0)) =~= fixed);
            while i < ids.len()
                invariant
                    i <= ids@.len(),
                    all == crate::text::views(ids@),
                    crate::text::views(keys@) == fixed + limit_keys(all.take(i as int)),
                decreases ids@.len() - i,
            {
                let name = normalize(ids[i].as_str());
                let ghost before = crate::text::views(keys@);
                keys.push(concat(name.as_str(), "-primary"));
                keys.push(concat(name.as_str(), "-secondary"));
                proof {
                    let next = all.take(i + 1);
                    assert(next.drop_last() =~= all.take(i as int));
                    assert(next.last() == ids@[i as int]@);
                    assert(crate::text::views(keys@) =~= before.push(name@ + "-primary"@).push(
                        name@ + "-secondary"@,
                    ));
                    assert(crate::text::views(keys@) =~= fixed + limit_keys(next));
                }
                i = i + 1;
            }
            assert(all.take(ids@.len() as int) =~= all);
        },
        None => {
            assert(fixed + Seq::<Seq<char>>::empty() =~= fixed);
        },
    }
    keys
}

pub(crate) fn is_at_threshold(account: &AccountState, keys: &Vec<String>, at: u64) -> (yes: bool)
    requires
        account.wf(),
    ensures
        yes == any_at_threshold(account@, crate::text::views(keys@), at),
{
    let ghost all = crate::text::views(keys@);
    let mut i: usize = 0;
    while i < keys.len()
        invariant
            i <= keys@.len(),
            account.wf(),
            all == crate::text::views(keys@),
            forall|k: int| 0 <= k < i ==> !at_threshold(account@, #[trigger] all[k], at),
        decreases keys@.len() - i,
    {
        assert(all[i as int] == keys@[i as int]@);
        if let Some(window) = account.quotas.get(keys[i].as_str()) {
            if window.used(at).at_least(account.threshold_percent) {
                assert(at_threshold(account@, all[i as int], at));
                return true;
            }
        }
        i = i + 1;
    }
    false
}

pub(crate) fn is_open(account: &AccountState, model: &str, at: u64) -> (yes: bool)
    requires
        account.wf(),
    ensures
        yes == model_is_open(account@, model@, at),
{
    match account.unavailable_models.get(model) {
        Some(until) => *until <= at,
        None => true,
    }
}

pub(crate) fn may_serve(account: &Account, model: &str) -> (yes: bool)
    ensures
        yes == allows_model(account@, model@),
{
    account.models.len() == 0 || any_same(&account.models, model)
}

pub(crate) fn belongs(account: &Account, group: Option<&str>) -> (yes: bool)
    ensures
        yes == in_group(account@, crate::json::read(group)),
{
    match group {
        Some(name) => any_same(&account.groups, name),
        None => account.groups.len() == 0,
    }
}

fn has_index(tried: &[usize], idx: usize) -> (yes: bool)
    ensures
        yes == tried@.contains(idx),
{
    let mut i: usize = 0;
    while i < tried.len()
        invariant
            i <= tried@.len(),
            forall|k: int| 0 <= k < i ==> #[trigger] tried@[k] != idx,
        decreases tried@.len() - i,
    {
        if tried[i] == idx {
            return true;
        }
        i = i + 1;
    }
    false
}

/// The earliest reset to come, or the end of time where there is none.
fn earliest_reset(quotas: &Quotas, at: u64) -> (reset: u64)
    requires
        quotas.wf(),
    ensures
        reset == next_reset(quotas@, at),
{
    let mut found: Option<u64> = None;
    let mut i: usize = 0;
    while i < quotas.len()
        invariant
            quotas.wf(),
            i <= quotas.entries().len(),
            match found {
                Some(reset) => exists|k: int|
                    0 <= k < i && (#[trigger] quotas.entries()[k]).1.reset_at == Some(reset)
                        && reset > at,
                None => true,
            },
            forall|k: int|
                0 <= k < i && has_reset_after((#[trigger] quotas.entries()[k]).1, at) ==> (found
                    matches Some(reset) && reset <= quotas.entries()[k].1.reset_at->Some_0),
        decreases quotas.entries().len() - i,
    {
        let window: Window = *quotas.value(i);
        assert(quotas.entries()[i as int].1 == window);
        if let Some(reset) = window.reset_at {
            if reset > at {
                let earlier = match found {
                    Some(other) => reset < other,
                    None => true,
                };
                if earlier {
                    found = Some(reset);
                }
            }
        }
        i = i + 1;
    }
    let reset: u64 = match found {
        Some(reset) => reset,
        None => u64::MAX,
    };
    proof {
        quotas.rows_are_the_map();
        let map = quotas@;
        assert forall|key: Seq<char>| #[trigger] resets_later(map, key, at) implies found
            matches Some(least) && least <= map[key].reset_at->Some_0 by {
            let k = choose|k: int|
                0 <= k < quotas.entries().len() && (#[trigger] quotas.entries()[k]).0 == key;
            assert(map[key] == quotas.entries()[k].1);
        }
        if let Some(least) = found {
            let k = choose|k: int|
                0 <= k < i && (#[trigger] quotas.entries()[k]).1.reset_at == Some(least) && least
                    > at;
            let key = quotas.entries()[k].0;
            assert(map.contains_key(key));
            assert(map[key].reset_at == Some(least));
            assert(resets_later(map, key, at));
        }
        assert(is_next_reset(map, at, reset));
        let other = next_reset(map, at);
        assert(is_next_reset(map, at, other));
        if exists|key: Seq<char>| resets_later(map, key, at) {
            let a = choose|key: Seq<char>|
                resets_later(map, key, at) && #[trigger] map[key].reset_at == Some(reset);
            let b = choose|key: Seq<char>|
                resets_later(map, key, at) && #[trigger] map[key].reset_at == Some(other);
            assert(resets_later(map, a, at));
            assert(resets_later(map, b, at));
        }
    }
    reset
}

fn goes_before(a: Rank, b: Rank) -> (yes: bool)
    ensures
        yes == rank_less(a, b),
{
    if a.priority != b.priority {
        return a.priority < b.priority;
    }
    if a.in_flight != b.in_flight {
        return a.in_flight < b.in_flight;
    }
    if a.reset != b.reset {
        return a.reset < b.reset;
    }
    a.selected < b.selected
}

/// An account that was chosen, and the record that is to be stored before it is used.
pub struct Choice {
    pub idx: usize,
    pub record: Option<Record>,
}

/// An account in use.
pub struct Lease {
    pub idx: usize,
}

/// What is to be stored before a session counts as bound to an account.
pub open spec fn planned(
    pool: PoolView,
    session: Option<Seq<char>>,
    i: int,
    at: u64,
) -> Option<RecordView> {
    match session {
        Some(key) => if pool.state.routing.unchanged(
            RouteKind::Session,
            key,
            pool.bindings[i],
            at,
        ) {
            None
        } else {
            Some(
                RecordView {
                    kind: RouteKind::Session,
                    key,
                    account: pool.bindings[i],
                    at,
                },
            )
        },
        None => None,
    }
}

/// The view of a record that may be missing.
pub open spec fn record_view(record: Option<Record>) -> Option<RecordView> {
    match record {
        Some(inner) => Some(inner@),
        None => None,
    }
}

/// The key that a session has for a model and a group.
pub open spec fn key_of(model: &str, group: Option<&str>, session: Option<&str>) -> Option<
    Seq<char>,
> {
    match session {
        Some(name) => Some(
            crate::identity::session_key(model@, crate::json::read(group), name@),
        ),
        None => None,
    }
}

impl Pool {
    pub(crate) fn limit_ids(&self, model: &str) -> (ids: Option<&Vec<String>>)
        requires
            self.wf(),
        ensures
            match ids {
                Some(list) => self@.limits(model@) == Some(crate::text::views(list@)),
                None => self@.limits(model@) is None,
            },
    {
        self.config.model_limits.get(model)
    }

    /// Whether an account could serve a request, but for its limits.
    pub(crate) fn is_candidate(
        &self,
        idx: usize,
        model: &str,
        group: Option<&str>,
        pinned: Option<usize>,
        tried: &[usize],
        at: u64,
    ) -> (yes: bool)
        requires
            self.wf(),
            idx < self@.state.accounts.len(),
        ensures
            yes == self@.candidate(idx as int, ask(model, group, pinned, tried, at)),
    {
        let state = &self.state.accounts[idx];
        let account = &self.config.accounts[idx];
        assert(self@.state.accounts[idx as int] == state@);
        assert(self@.config.accounts[idx as int] == account@);
        if state.disabled || state.hold_until > at {
            return false;
        }
        if !is_open(state, model, at) {
            return false;
        }
        if has_index(tried, idx) {
            return false;
        }
        if let Some(pin) = pinned {
            if pin != idx {
                return false;
            }
        }
        if model.unicode_len() > 0 && !may_serve(account, model) {
            return false;
        }
        belongs(account, group)
    }

    fn is_eligible(
        &self,
        idx: usize,
        keys: &Vec<String>,
        model: &str,
        group: Option<&str>,
        pinned: Option<usize>,
        tried: &[usize],
        at: u64,
    ) -> (yes: bool)
        requires
            self.wf(),
            idx < self@.state.accounts.len(),
            crate::text::views(keys@) == relevant_keys(model@, self@.limits(model@)),
        ensures
            yes == self@.eligible(idx as int, ask(model, group, pinned, tried, at)),
    {
        assert(self@.state.accounts[idx as int] == self.state.accounts@[idx as int]@);
        self.is_candidate(idx, model, group, pinned, tried, at) && !is_at_threshold(
            &self.state.accounts[idx],
            keys,
            at,
        )
    }

    fn rank_of(&self, idx: usize, at: u64) -> (rank: Rank)
        requires
            self.wf(),
            idx < self@.state.accounts.len(),
        ensures
            rank == self@.rank(idx as int, at),
    {
        let state = &self.state.accounts[idx];
        assert(self@.state.accounts[idx as int] == state@);
        assert(self@.config.accounts[idx as int] == self.config.accounts@[idx as int]@);
        Rank {
            priority: self.config.accounts[idx].priority,
            in_flight: state.in_flight,
            reset: earliest_reset(&state.quotas, at),
            selected: state.selected,
        }
    }

    /// The first account with a binding.
    fn binding_index(&self, binding: &str) -> (idx: Option<usize>)
        requires
            self.wf(),
        ensures
            match idx {
                Some(found) => found < self@.bindings.len() && first_binding(
                    self@.bindings,
                    binding@,
                ) == Some(found as int),
                None => first_binding(self@.bindings, binding@) is None,
            },
    {
        let mut i: usize = 0;
        while i < self.bindings.len()
            invariant
                i <= self.bindings@.len(),
                forall|k: int| 0 <= k < i ==> #[trigger] self@.bindings[k] != binding@,
            decreases self.bindings@.len() - i,
        {
            assert(self@.bindings[i as int] == self.bindings@[i as int]@);
            if same(self.bindings[i].as_str(), binding) {
                proof {
                    lemma_first_binding(self@.bindings, binding@, i as int);
                }
                return Some(i);
            }
            i = i + 1;
        }
        proof {
            lemma_no_binding(self@.bindings, binding@);
        }
        None
    }

    /// The account that a key is bound to.
    fn bound_index(&self, kind: RouteKind, key: &str, at: u64) -> (idx: Option<usize>)
        requires
            self.wf(),
        ensures
            match idx {
                Some(found) => found < self@.bindings.len() && self@.bound(kind, key@, at) == Some(
                    found as int,
                ),
                None => self@.bound(kind, key@, at) is None,
            },
    {
        match self.state.routing.get_at(kind, key, at) {
            Some(binding) => self.binding_index(binding),
            None => None,
        }
    }

    /// The account that produced a response, as known at a given time.
    pub fn response_account_at(&self, id: &str, at: u64) -> (idx: Option<usize>)
        requires
            self.wf(),
        ensures
            match idx {
                Some(found) => found < self@.bindings.len() && self@.bound(
                    RouteKind::Response,
                    crate::identity::text_digest(id@),
                    at,
                ) == Some(found as int),
                None => self@.bound(
                    RouteKind::Response,
                    crate::identity::text_digest(id@),
                    at,
                ) is None,
            },
    {
        let key = hash_text(id);
        self.bound_index(RouteKind::Response, key.as_str(), at)
    }

    /// The account that produced a response.
    pub fn response_account(&self, id: &str) -> (idx: Option<usize>)
        requires
            self.wf(),
        ensures
            exists|at: u64|
                match idx {
                    Some(found) => #[trigger] self@.bound(
                        RouteKind::Response,
                        crate::identity::text_digest(id@),
                        at,
                    ) == Some(found as int),
                    None => self@.bound(
                        RouteKind::Response,
                        crate::identity::text_digest(id@),
                        at,
                    ) is None,
                },
    {
        let at: u64 = now();
        self.response_account_at(id, at)
    }

    /// The best account for a request.
    fn best_account(
        &self,
        keys: &Vec<String>,
        model: &str,
        group: Option<&str>,
        pinned: Option<usize>,
        tried: &[usize],
        at: u64,
    ) -> (best: Option<usize>)
        requires
            self.wf(),
            crate::text::views(keys@) == relevant_keys(model@, self@.limits(model@)),
        ensures
            match best {
                Some(idx) => idx < self@.state.accounts.len() && self@.best(
                    idx as int,
                    ask(model, group, pinned, tried, at),
                ),
                None => forall|i: int|
                    !#[trigger] self@.eligible(i, ask(model, group, pinned, tried, at)),
            },
    {
        let ghost question = ask(model, group, pinned, tried, at);
        let mut best: Option<usize> = None;
        let mut i: usize = 0;
        while i < self.state.accounts.len()
            invariant
                self.wf(),
                i <= self.state.accounts@.len(),
                crate::text::views(keys@) == relevant_keys(model@, self@.limits(model@)),
                question == ask(model, group, pinned, tried, at),
                match best {
                    Some(idx) => idx < i && self@.eligible(idx as int, question),
                    None => true,
                },
                forall|j: int|
                    0 <= j < i && #[trigger] self@.eligible(j, question) ==> (best matches Some(
                        idx,
                    ) && self@.precedes(idx as int, j, at)),
            decreases self.state.accounts@.len() - i,
        {
            if self.is_eligible(i, keys, model, group, pinned, tried, at) {
                let better = match best {
                    Some(idx) => goes_before(self.rank_of(i, at), self.rank_of(idx, at)),
                    None => true,
                };
                if better {
                    best = Some(i);
                }
            }
            i = i + 1;
        }
        best
    }

    /// Chooses an account for a request at a given time, and tells what is to be stored before it
    /// is used. `None` where routing has failed or no account can serve the request.
    pub fn choose_at(
        &self,
        model: &str,
        group: Option<&str>,
        session: Option<&str>,
        pinned: Option<usize>,
        tried: &[usize],
        at: u64,
    ) -> (choice: Option<Choice>)
        requires
            self.wf(),
        ensures
            match choice {
                Some(choice) => {
                    &&& !self@.state.routing.failed
                    &&& choice.idx < self@.state.accounts.len()
                    &&& self@.chosen(
                        choice.idx as int,
                        key_of(model, group, session),
                        ask(model, group, pinned, tried, at),
                    )
                    &&& record_view(choice.record) == planned(
                        self@,
                        key_of(model, group, session),
                        choice.idx as int,
                        at,
                    )
                },
                None => self@.state.routing.failed || forall|i: int|
                    !#[trigger] self@.eligible(i, ask(model, group, pinned, tried, at)),
            },
    {
        let ghost question = ask(model, group, pinned, tried, at);
        if !self.state.routing.healthy() {
            return None;
        }
        let key: Option<String> = match session {
            Some(name) => Some(session_binding(model, group, name)),
            None => None,
        };
        let keys = keys_for(model, self.limit_ids(model));
        let affinity: Option<usize> = match &key {
            Some(key) => match self.bound_index(RouteKind::Session, key.as_str(), at) {
                Some(idx) => if self.is_eligible(idx, &keys, model, group, pinned, tried, at) {
                    Some(idx)
                } else {
                    None
                },
                None => None,
            },
            None => None,
        };
        let idx: usize = match affinity {
            Some(idx) => idx,
            None => match self.best_account(&keys, model, group, pinned, tried, at) {
                Some(idx) => idx,
                None => return None,
            },
        };
        assert(self@.chosen(idx as int, key_of(model, group, session), question));
        assert(self@.bindings[idx as int] == self.bindings@[idx as int]@);
        let record: Option<Record> = match key {
            Some(key) => match self.state.routing.plan(
                RouteKind::Session,
                key,
                self.bindings[idx].clone(),
                at,
            ) {
                Plan::Write(record) => Some(record),
                _ => None,
            },
            None => None,
        };
        Some(Choice { idx, record })
    }

    /// Takes a chosen account into use, where the record was stored or there was none; else stops
    /// all routing.
    pub fn take(&mut self, choice: Choice, stored: bool, at: u64) -> (lease: Option<Lease>)
        requires
            old(self).wf(),
            choice.idx < old(self)@.state.accounts.len(),
        ensures
            final(self).wf(),
            choice.record is None || stored ==> {
                &&& lease matches Some(taken) && taken.idx == choice.idx
                &&& final(self)@ == (PoolView {
                    state: StateView {
                        routing: match choice.record {
                            Some(record) => old(self)@.state.routing.insert(record@, at),
                            None => old(self)@.state.routing,
                        },
                        ..old(self)@.with_selection(choice.idx as int, None, at).state
                    },
                    ..old(self)@
                })
            },
            choice.record is Some && !stored ==> {
                &&& lease is None
                &&& final(self)@ == (PoolView {
                    state: StateView {
                        routing: crate::affinity::RoutingView {
                            failed: true,
                            ..old(self)@.state.routing
                        },
                        ..old(self)@.state
                    },
                    ..old(self)@
                })
            },
    {
        let ghost before = *self;
        let Choice { idx, record } = choice;
        if let Some(record) = record {
            proof {
                crate::affinity::insertion_stays_bounded(self@.state.routing, record@, at);
            }
            self.state.routing.commit(record, stored, at);
            if !stored {
                return None;
            }
        }
        let ghost routed = self.state.routing@;
        self.state.sequence = self.state.sequence.saturating_add(1);
        let sequence: u64 = self.state.sequence;
        self.state.accounts[idx].in_flight = self.state.accounts[idx].in_flight.wrapping_add(1);
        self.state.accounts[idx].selected = sequence;
        proof {
            let target = before@.with_selection(idx as int, None, at);
            assert(self@.state.accounts =~= target.state.accounts);
            assert(self@ =~= PoolView {
                state: StateView { routing: routed, ..target.state },
                ..before@
            });
            assert forall|i: int| 0 <= i < self@.state.accounts.len() implies
                crate::pool::account_wf(
                #[trigger] self@.state.accounts[i],
                self@.config.accounts[i],
                self@.config.settings.threshold_percent,
            ) by {
                assert(crate::pool::account_wf(
                    before@.state.accounts[i],
                    before@.config.accounts[i],
                    before@.config.settings.threshold_percent,
                ));
            }
            assert forall|i: int| 0 <= i < self.state.accounts@.len() implies (
            #[trigger] self.state.accounts@[i]).wf() by {
                assert(before.state.accounts@[i].wf());
            }
        }
        Some(Lease { idx })
    }

    /// Chooses an account for a request at a given time and takes it into use, in a pool that
    /// keeps its routing in memory.
    pub fn select_at(
        &mut self,
        model: &str,
        group: Option<&str>,
        session: Option<&str>,
        pinned: Option<usize>,
        tried: &[usize],
        at: u64,
    ) -> (lease: Option<Lease>)
        requires
            old(self).wf(),
            !old(self)@.state.routing.persistent,
        ensures
            final(self).wf(),
            match lease {
                Some(lease) => {
                    &&& !old(self)@.state.routing.failed
                    &&& lease.idx < old(self)@.state.accounts.len()
                    &&& old(self)@.chosen(
                        lease.idx as int,
                        key_of(model, group, session),
                        ask(model, group, pinned, tried, at),
                    )
                    &&& final(self)@ == old(self)@.with_selection(
                        lease.idx as int,
                        key_of(model, group, session),
                        at,
                    )
                },
                None => {
                    &&& final(self)@ == old(self)@
                    &&& old(self)@.state.routing.failed || forall|i: int|
                        !#[trigger] old(self)@.eligible(i, ask(model, group, pinned, tried, at))
                },
            },
    {
        match self.choose_at(model, group, session, pinned, tried, at) {
            Some(choice) => {
                let lease = self.take(choice, true, at);
                assert(self@ =~= old(self)@.with_selection(
                    choice.idx as int,
                    key_of(model, group, session),
                    at,
                ));
                lease
            },
            None => None,
        }
    }

    /// Chooses an account for a request and takes it into use, in a pool that keeps its routing in
    /// memory.
    pub fn select(
        &mut self,
        model: &str,
        group: Option<&str>,
        session: Option<&str>,
        pinned: Option<usize>,
        tried: &[usize],
    ) -> (lease: Option<Lease>)
        requires
            old(self).wf(),
            !old(self)@.state.routing.persistent,
        ensures
            final(self).wf(),
            exists|at: u64|
                match lease {
                    Some(lease) => {
                        &&& !old(self)@.state.routing.failed
                        &&& old(self)@.chosen(
                            lease.idx as int,
                            key_of(model, group, session),
                            #[trigger] ask(model, group, pinned, tried, at),
                        )
                        &&& final(self)@ == old(self)@.with_selection(
                            lease.idx as int,
                            key_of(model, group, session),
                            at,
                        )
                    },
                    None => {
                        &&& final(self)@ == old(self)@
                        &&& old(self)@.state.routing.failed || forall|i: int|
                            !#[trigger] old(self)@.eligible(
                                i,
                                ask(model, group, pinned, tried, at),
                            )
                    },
                },
    {
        let at: u64 = now();
        let lease = self.select_at(model, group, session, pinned, tried, at);
        assert(ask(model, group, pinned, tried, at).at == at);
        lease
    }

    /// Takes an account out of use.
    pub fn release(&mut self, lease: Lease)
        requires
            old(self).wf(),
            lease.idx < old(self)@.state.accounts.len(),
        ensures
            final(self).wf(),
            final(self)@ == old(self)@.with_account(
                lease.idx as int,
                AccountStateView {
                    in_flight: old(self)@.state.accounts[lease.idx as int].in_flight.wrapping_sub(
                        1,
                    ),
                    ..old(self)@.state.accounts[lease.idx as int]
                },
            ),
    {
        let ghost before = *self;
        let idx: usize = lease.idx;
        self.state.accounts[idx].in_flight = self.state.accounts[idx].in_flight.wrapping_sub(1);
        proof {
            crate::pool::lemma_account_changed(before, *self, idx as int);
        }
    }

    /// Whether any account can serve a request at a given time.
    pub fn has_eligible_at(
        &self,
        model: &str,
        group: Option<&str>,
        pinned: Option<usize>,
        at: u64,
    ) -> (yes: bool)
        requires
            self.wf(),
        ensures
            yes == exists|i: int| #[trigger]
                self@.eligible(i, first_ask(model, group, pinned, at)),
    {
        let keys = keys_for(model, self.limit_ids(model));
        let tried: Vec<usize> = Vec::new();
        assert(tried@ =~= Seq::empty());
        self.best_account(&keys, model, group, pinned, tried.as_slice(), at).is_some()
    }
}

/// At most one account is chosen for a request.
pub proof fn choice_is_unique(
    pool: PoolView,
    i: int,
    j: int,
    session: Option<Seq<char>>,
    ask: Ask,
)
    requires
        pool.chosen(i, session, ask),
        pool.chosen(j, session, ask),
    ensures
        i == j,
{
}

/// A chosen account is enabled, not on hold, not limited, not tried before, in the group that was
/// asked for, and may serve the model; and it is the account that the request is pinned to.
pub proof fn chosen_account_is_eligible(
    pool: PoolView,
    i: int,
    session: Option<Seq<char>>,
    ask: Ask,
)
    requires
        pool.chosen(i, session, ask),
    ensures
        pool.eligible(i, ask),
        !pool.state.accounts[i].disabled,
        pool.state.accounts[i].hold_until <= ask.at,
        !pool.limited(i, ask.model, ask.at),
        !ask.tried.contains(i as usize),
        ask.pinned matches Some(pin) ==> pin == i,
        in_group(pool.config.accounts[i], ask.group),
{
}

/// A request outside any session goes to an account of the lowest priority among those that can
/// serve it, and among these to one with the fewest active requests.
pub proof fn lowest_priority_goes_first(pool: PoolView, i: int, j: int, ask: Ask)
    requires
        pool.chosen(i, None, ask),
        pool.eligible(j, ask),
    ensures
        pool.config.accounts[i].priority <= pool.config.accounts[j].priority,
        pool.config.accounts[i].priority == pool.config.accounts[j].priority
            ==> pool.state.accounts[i].in_flight <= pool.state.accounts[j].in_flight,
{
    assert(pool.precedes(i, j, ask.at));
}

/// A selection binds its session to the chosen account, for as long as the binding lives that it
/// leaves.
pub proof fn selection_binds_the_session(
    pool: PoolView,
    i: int,
    key: Seq<char>,
    at: u64,
    time: u64,
)
    requires
        !pool.state.routing.failed,
    ensures
        ({
            let routing = pool.with_selection(i, Some(key), at).state.routing;
            &&& routing.sessions.contains_key(key)
            &&& routing.get(RouteKind::Session, key, time) == if crate::affinity::live(
                routing.sessions[key],
                time,
            ) {
                Some(pool.bindings[i])
            } else {
                None
            }
        }),
{
    crate::affinity::binding_lives_for_a_day(
        pool.state.routing,
        RouteKind::Session,
        key,
        pool.bindings[i],
        at,
        time,
    );
}

/// An established session stays on its account while that account is eligible, whatever has become
/// of the others: a better account that recovers does not take the session over. It stays for as
/// long as it is bound to the account.
pub proof fn session_stays_on_its_account(
    pool: PoolView,
    i: int,
    key: Seq<char>,
    later: PoolView,
    j: int,
    ask: Ask,
)
    requires
        first_binding(pool.bindings, pool.bindings[i]) == Some(i),
        later.bindings == pool.bindings,
        later.state.routing.get(RouteKind::Session, key, ask.at) == Some(pool.bindings[i]),
        later.eligible(i, ask),
        later.chosen(j, Some(key), ask),
    ensures
        j == i,
{
}

/// A binding follows its account to another place in the list: what counts is the identity of the
/// account.
pub proof fn binding_follows_its_account(
    pool: PoolView,
    moved: PoolView,
    i: int,
    j: int,
    kind: RouteKind,
    key: Seq<char>,
    at: u64,
)
    requires
        pool.wf(),
        moved.wf(),
        pool.bound(kind, key, at) == Some(i),
        0 <= i < pool.config.accounts.len(),
        0 <= j < moved.config.accounts.len(),
        moved.config.accounts[j] == pool.config.accounts[i],
        moved.state.routing == pool.state.routing,
        forall|k: int|
            0 <= k < moved.bindings.len() && k != j ==> #[trigger] moved.bindings[k]
                != moved.bindings[j],
    ensures
        moved.bound(kind, key, at) == Some(j),
{
    let binding = pool.state.routing.get(kind, key, at)->Some_0;
    lemma_found_binding(pool.bindings, binding);
    assert(pool.bindings[i] == binding);
    assert(moved.bindings[j] == binding);
    lemma_first_binding(moved.bindings, binding, j);
}

proof fn lemma_found_binding(bindings: Seq<Seq<char>>, binding: Seq<char>)
    ensures
        first_binding(bindings, binding) matches Some(i) ==> 0 <= i < bindings.len() && bindings[i]
            == binding,
    decreases bindings.len(),
{
    if bindings.len() > 0 {
        lemma_found_binding(bindings.drop_last(), binding);
    }
}

/// Taking an account out of use undoes what taking it into use did to its active requests.
pub proof fn release_undoes_selection(pool: PoolView, i: int, session: Option<Seq<char>>, at: u64)
    requires
        pool.wf(),
        0 <= i < pool.state.accounts.len(),
    ensures
        pool.with_selection(i, session, at).state.accounts[i].in_flight.wrapping_sub(1)
            == pool.state.accounts[i].in_flight,
        forall|j: int|
            0 <= j < pool.state.accounts.len() && j != i ==> #[trigger] pool.with_selection(
                i,
                session,
                at,
            ).state.accounts[j] == pool.state.accounts[j],
{
}

/// A selection has a number greater than all that were given before, and takes no number of
/// another account away. (It takes the counter not to be full.)
pub proof fn selection_numbers_grow(pool: PoolView, i: int, session: Option<Seq<char>>, at: u64)
    requires
        pool.wf(),
        0 <= i < pool.state.accounts.len(),
        pool.state.sequence < u64::MAX,
    ensures
        forall|j: int|
            0 <= j < pool.state.accounts.len() ==> (#[trigger] pool.state.accounts[j]).selected
                < pool.with_selection(i, session, at).state.accounts[i].selected,
        pool.with_selection(i, session, at).state.accounts[i].selected == pool.with_selection(
            i,
            session,
            at,
        ).state.sequence,
        forall|j: int|
            0 <= j < pool.state.accounts.len() && j != i ==> #[trigger] pool.with_selection(
                i,
                session,
                at,
            ).state.accounts[j] == pool.state.accounts[j],
{
}

/// A limit that has reset keeps no account from serving a request.
pub proof fn reset_limits_do_not_count(pool: PoolView, i: int, model: Seq<char>, at: u64)
    requires
        pool.wf(),
        0 <= i < pool.state.accounts.len(),
        pool.state.accounts[i].threshold_percent.threshold(),
        forall|key: Seq<char>| #[trigger]
            pool.state.accounts[i].quotas.contains_key(key) ==> crate::quota::has_reset(
                pool.state.accounts[i].quotas[key],
                at,
            ),
    ensures
        !pool.limited(i, model, at),
{
}

/// The key names one of the windows that a request for a model has to respect.
spec fn names_limit(pool: PoolView, model: Seq<char>, key: Seq<char>) -> bool {
    ||| key == "codex-primary"@
    ||| key == "codex-secondary"@
    ||| key == "api:"@ + model + ":requests"@
    ||| key == "api:"@ + model + ":tokens"@
    ||| key == "api:"@ + model + ":project-tokens"@
    ||| pool.config.settings.model_limits.contains_key(model) && exists|k: int|
        0 <= k < pool.config.settings.model_limits[model].len() && (key == crate::quota::normalized(
            #[trigger] pool.config.settings.model_limits[model][k],
        ) + "-primary"@ || key == crate::quota::normalized(
            pool.config.settings.model_limits[model][k],
        ) + "-secondary"@)
}

proof fn lemma_limit_keys(ids: Seq<Seq<char>>, key: Seq<char>)
    ensures
        limit_keys(ids).contains(key) <==> exists|k: int|
            0 <= k < ids.len() && (key == crate::quota::normalized(#[trigger] ids[k])
                + "-primary"@ || key == crate::quota::normalized(ids[k]) + "-secondary"@),
    decreases ids.len(),
{
    if ids.len() > 0 {
        let rest = ids.drop_last();
        let name = crate::quota::normalized(ids.last());
        lemma_limit_keys(rest, key);
        let before = limit_keys(rest);
        let all = limit_keys(ids);
        assert(all.len() == before.len() + 2);
        assert(all[before.len() as int] == name + "-primary"@);
        assert(all[before.len() as int + 1] == name + "-secondary"@);
        if limit_keys(rest).contains(key) {
            let j = choose|j: int| 0 <= j < before.len() && before[j] == key;
            assert(all[j] == key);
            let k = choose|k: int|
                0 <= k < rest.len() && (key == crate::quota::normalized(#[trigger] rest[k])
                    + "-primary"@ || key == crate::quota::normalized(rest[k]) + "-secondary"@);
            assert(ids[k] == rest[k]);
        }
        if all.contains(key) {
            let j = choose|j: int| 0 <= j < all.len() && all[j] == key;
            if j < before.len() {
                assert(before[j] == key);
            } else {
                assert(ids[ids.len() - 1] == ids.last());
            }
        }
        if exists|k: int|
            0 <= k < ids.len() && (key == crate::quota::normalized(#[trigger] ids[k]) + "-primary"@
                || key == crate::quota::normalized(ids[k]) + "-secondary"@) {
            let k = choose|k: int|
                0 <= k < ids.len() && (key == crate::quota::normalized(#[trigger] ids[k])
                    + "-primary"@ || key == crate::quota::normalized(ids[k]) + "-secondary"@);
            if k < rest.len() {
                assert(rest[k] == ids[k]);
            }
        }
    }
}

proof fn lemma_relevant(pool: PoolView, model: Seq<char>, key: Seq<char>)
    ensures
        relevant_keys(model, pool.limits(model)).contains(key) <==> names_limit(pool, model, key),
{
    let keys = relevant_keys(model, pool.limits(model));
    assert(keys[0] == "codex-primary"@);
    assert(keys[1] == "codex-secondary"@);
    assert(keys[2] == "api:"@ + model + ":requests"@);
    assert(keys[3] == "api:"@ + model + ":tokens"@);
    assert(keys[4] == "api:"@ + model + ":project-tokens"@);
    if let Some(ids) = pool.limits(model) {
        lemma_limit_keys(ids, key);
        let more = limit_keys(ids);
        assert(forall|j: int| 0 <= j < more.len() ==> keys[5 + j] == #[trigger] more[j]);
        if more.contains(key) {
            let j = choose|j: int| 0 <= j < more.len() && more[j] == key;
            assert(keys[5 + j] == key);
        }
        if keys.contains(key) {
            let j = choose|j: int| 0 <= j < keys.len() && keys[j] == key;
            if j >= 5 {
                assert(more[j - 5] == key);
            }
        }
    }
}

/// An account is out of the question for a model while one of these windows is used up to its
/// threshold and has not reset: `codex-primary` and `codex-secondary`, the windows of the API for
/// requests, tokens and project tokens of the model, and both windows of each limit configured for
/// the model.
pub proof fn used_up_window_keeps_the_account_out(
    pool: PoolView,
    i: int,
    session: Option<Seq<char>>,
    ask: Ask,
    key: Seq<char>,
)
    requires
        0 <= i < pool.state.accounts.len(),
        pool.state.accounts[i].quotas.contains_key(key),
        pool.state.accounts[i].quotas[key].reset_at matches Some(reset) ==> ask.at < reset,
        pool.state.accounts[i].threshold_percent.bits <= pool.state.accounts[i].quotas[key]
            .used_percent.bits < 0x8000_0000_0000_0000,
        key == "codex-primary"@ || key == "codex-secondary"@ || key == "api:"@ + ask.model
            + ":requests"@ || key == "api:"@ + ask.model + ":tokens"@ || key == "api:"@ + ask.model
            + ":project-tokens"@ || (pool.config.settings.model_limits.contains_key(ask.model)
            && exists|k: int|
            0 <= k < pool.config.settings.model_limits[ask.model].len() && (key
                == crate::quota::normalized(
                #[trigger] pool.config.settings.model_limits[ask.model][k],
            ) + "-primary"@ || key == crate::quota::normalized(
                pool.config.settings.model_limits[ask.model][k],
            ) + "-secondary"@)),
    ensures
        pool.limited(i, ask.model, ask.at),
        !pool.eligible(i, ask),
        !pool.chosen(i, session, ask),
{
    lemma_relevant(pool, ask.model, key);
    let keys = relevant_keys(ask.model, pool.limits(ask.model));
    let k = choose|k: int| 0 <= k < keys.len() && keys[k] == key;
    assert(at_threshold(pool.state.accounts[i], keys[k], ask.at));
}

/// An account can serve a request where it is enabled, on no hold, not tried before, the one that
/// the request is pinned to if it is pinned, allowed and open for the model, of the group that is
/// asked for, or of none where none is; and where none of the windows that count is used up to its
/// threshold. Windows of other names do not count.
pub proof fn eligible_account_is_free(pool: PoolView, i: int, ask: Ask)
    requires
        0 <= i < pool.state.accounts.len(),
        0 < pool.state.accounts[i].threshold_percent.bits < 0x8000_0000_0000_0000,
        forall|key: Seq<char>| #[trigger]
            pool.state.accounts[i].quotas.contains_key(key)
                ==> pool.state.accounts[i].quotas[key].used_percent.bits < 0x8000_0000_0000_0000,
    ensures
        pool.eligible(i, ask) <==> {
            let state = pool.state.accounts[i];
            let account = pool.config.accounts[i];
            &&& !state.disabled
            &&& state.hold_until <= ask.at
            &&& state.unavailable_models.contains_key(ask.model)
                ==> state.unavailable_models[ask.model] <= ask.at
            &&& !ask.tried.contains(i as usize)
            &&& ask.pinned matches Some(pin) ==> pin == i
            &&& ask.model.len() == 0 || account.models.len() == 0 || account.models.contains(
                ask.model,
            )
            &&& ask.group is None ==> account.groups.len() == 0
            &&& ask.group matches Some(name) ==> account.groups.contains(name)
            &&& forall|key: Seq<char>|
                (#[trigger] state.quotas.contains_key(key) && (key == "codex-primary"@ || key
                    == "codex-secondary"@ || key == "api:"@ + ask.model + ":requests"@ || key
                    == "api:"@ + ask.model + ":tokens"@ || key == "api:"@ + ask.model
                    + ":project-tokens"@ || (pool.config.settings.model_limits.contains_key(
                    ask.model,
                ) && exists|k: int|
                    0 <= k < pool.config.settings.model_limits[ask.model].len() && (key
                        == crate::quota::normalized(
                        #[trigger] pool.config.settings.model_limits[ask.model][k],
                    ) + "-primary"@ || key == crate::quota::normalized(
                        pool.config.settings.model_limits[ask.model][k],
                    ) + "-secondary"@)))) ==> {
                    ||| state.quotas[key].reset_at matches Some(reset) && reset <= ask.at
                    ||| state.quotas[key].used_percent.bits < state.threshold_percent.bits
                }
        },
{
    let state = pool.state.accounts[i];
    let keys = relevant_keys(ask.model, pool.limits(ask.model));
    assert(pool.limited(i, ask.model, ask.at) <==> exists|key: Seq<char>|
        #[trigger] state.quotas.contains_key(key) && names_limit(pool, ask.model, key) && !(
        state.quotas[key].reset_at matches Some(reset) && reset <= ask.at)
            && state.quotas[key].used_percent.bits >= state.threshold_percent.bits) by {
        if pool.limited(i, ask.model, ask.at) {
            let k = choose|k: int|
                0 <= k < keys.len() && at_threshold(state, #[trigger] keys[k], ask.at);
            assert(keys.contains(keys[k]));
            lemma_relevant(pool, ask.model, keys[k]);
            assert(state.quotas.contains_key(keys[k]));
        }
        if exists|key: Seq<char>|
            #[trigger] state.quotas.contains_key(key) && names_limit(pool, ask.model, key) && !(
            state.quotas[key].reset_at matches Some(reset) && reset <= ask.at)
                && state.quotas[key].used_percent.bits >= state.threshold_percent.bits {
            let key = choose|key: Seq<char>|
                #[trigger] state.quotas.contains_key(key) && names_limit(pool, ask.model, key) && !(
                state.quotas[key].reset_at matches Some(reset) && reset <= ask.at)
                    && state.quotas[key].used_percent.bits >= state.threshold_percent.bits;
            lemma_relevant(pool, ask.model, key);
            let k = choose|k: int| 0 <= k < keys.len() && keys[k] == key;
            assert(at_threshold(state, keys[k], ask.at));
        }
    }
}

proof fn lemma_reset_exists(quotas: Windows, at: u64, key: Seq<char>)
    requires
        resets_later(quotas, key, at),
    ensures
        exists|reset: u64| is_next_reset(quotas, at, reset),
    decreases quotas[key].reset_at->Some_0,
{
    let reset = quotas[key].reset_at->Some_0;
    if exists|other: Seq<char>|
        resets_later(quotas, other, at) && #[trigger] quotas[other].reset_at->Some_0 < reset {
        let other = choose|other: Seq<char>|
            resets_later(quotas, other, at) && #[trigger] quotas[other].reset_at->Some_0 < reset;
        lemma_reset_exists(quotas, at, other);
    } else {
        assert forall|other: Seq<char>| #[trigger] resets_later(quotas, other, at) implies reset
            <= quotas[other].reset_at->Some_0 by {}
        assert(is_next_reset(quotas, at, reset));
    }
}

/// The earliest reset to come of an account: no window resets between now and then, and one resets
/// then; where no window has a reset to come, it is the end of time.
pub proof fn next_reset_is_the_earliest(quotas: Windows, at: u64, key: Seq<char>)
    ensures
        quotas.contains_key(key) && (quotas[key].reset_at matches Some(reset) && reset > at)
            ==> next_reset(quotas, at) <= quotas[key].reset_at->Some_0,
        next_reset(quotas, at) == u64::MAX || exists|other: Seq<char>|
            #[trigger] quotas.contains_key(other) && quotas[other].reset_at == Some(
                next_reset(quotas, at),
            ),
        next_reset(quotas, at) > at || at == u64::MAX,
{
    if exists|key: Seq<char>| resets_later(quotas, key, at) {
        lemma_reset_exists(quotas, at, choose|key: Seq<char>| resets_later(quotas, key, at));
    } else {
        assert(is_next_reset(quotas, at, u64::MAX));
    }
    let found = next_reset(quotas, at);
    assert(is_next_reset(quotas, at, found));
    assert(quotas.contains_key(key) && has_reset_after(quotas[key], at) ==> resets_later(
        quotas,
        key,
        at,
    ));
    if exists|key: Seq<char>| resets_later(quotas, key, at) {
        let other = choose|other: Seq<char>|
            resets_later(quotas, other, at) && #[trigger] quotas[other].reset_at == Some(found);
        assert(quotas.contains_key(other));
    }
}

/// Among the accounts that can serve a request outside any session, the one is chosen that no other
/// beats: by a lower priority; at the same priority by fewer active requests; at the same number of
/// these by an earlier reset; at the same reset by a less recent selection; and by its place.
pub proof fn chosen_account_is_beaten_by_none(pool: PoolView, i: int, j: int, ask: Ask)
    requires
        pool.chosen(i, None, ask),
        pool.eligible(j, ask),
    ensures
        ({
            let (a, b) = (pool.config.accounts[i].priority, pool.config.accounts[j].priority);
            let (s, t) = (pool.state.accounts[i], pool.state.accounts[j]);
            let (r, q) = (next_reset(s.quotas, ask.at), next_reset(t.quotas, ask.at));
            &&& a <= b
            &&& a == b ==> s.in_flight <= t.in_flight
            &&& a == b && s.in_flight == t.in_flight ==> r <= q
            &&& a == b && s.in_flight == t.in_flight && r == q ==> s.selected <= t.selected
            &&& a == b && s.in_flight == t.in_flight && r == q && s.selected == t.selected ==> i
                <= j
        }),
{
    assert(pool.precedes(i, j, ask.at));
}

/// A session that is bound to an account that cannot serve the request, or to none, is served like
/// a request outside any session.
pub proof fn unbound_session_goes_to_the_best(
    pool: PoolView,
    i: int,
    key: Seq<char>,
    ask: Ask,
)
    requires
        pool.bound(RouteKind::Session, key, ask.at) matches Some(j) ==> !pool.eligible(j, ask),
    ensures
        pool.chosen(i, Some(key), ask) <==> pool.chosen(i, None, ask),
{
}

/// A key is bound to the first account whose binding the routing holds for it, for less than a day.
pub proof fn bound_account_has_the_binding(pool: PoolView, kind: RouteKind, key: Seq<char>, at: u64)
    ensures
        pool.bound(kind, key, at) matches Some(i) ==> {
            let map = match kind {
                RouteKind::Session => pool.state.routing.sessions,
                RouteKind::Response => pool.state.routing.responses,
            };
            &&& 0 <= i < pool.bindings.len()
            &&& !pool.state.routing.failed
            &&& map.contains_key(key)
            &&& map[key].account == pool.bindings[i]
            &&& at < map[key].at + 86_400
            &&& forall|k: int| 0 <= k < i ==> #[trigger] pool.bindings[k] != pool.bindings[i]
        },
{
    if let Some(binding) = pool.state.routing.get(kind, key, at) {
        lemma_found_binding(pool.bindings, binding);
        lemma_found_first(pool.bindings, binding);
    }
}

proof fn lemma_found_first(bindings: Seq<Seq<char>>, binding: Seq<char>)
    ensures
        first_binding(bindings, binding) matches Some(i) ==> forall|k: int|
            0 <= k < i ==> #[trigger] bindings[k] != binding,
    decreases bindings.len(),
{
    if bindings.len() > 0 {
        let rest = bindings.drop_last();
        lemma_found_first(rest, binding);
        lemma_found_binding(rest, binding);
        match first_binding(rest, binding) {
            Some(i) => {
                assert forall|k: int| 0 <= k < i implies #[trigger] bindings[k] != binding by {
                    assert(rest[k] == bindings[k]);
                }
            },
            None => {
                assert forall|k: int| 0 <= k < rest.len() implies #[trigger] bindings[k]
                    != binding by {
                    if bindings[k] == binding {
                        lemma_has_binding(rest, binding, k);
                    }
                }
            },
        }
    }
}

proof fn lemma_has_binding(bindings: Seq<Seq<char>>, binding: Seq<char>, k: int)
    requires
        0 <= k < bindings.len(),
        bindings[k] == binding,
    ensures
        first_binding(bindings, binding) is Some,
    decreases bindings.len(),
{
    if k < bindings.len() - 1 {
        lemma_has_binding(bindings.drop_last(), binding, k);
    }
}

/// Taking an account into use counts one more active request and gives it the next number; nothing
/// else of the pool changes but the routing, and that only for a session.
pub proof fn selection_counts_one_request(
    pool: PoolView,
    i: int,
    session: Option<Seq<char>>,
    at: u64,
)
    requires
        pool.wf(),
        0 <= i < pool.state.accounts.len(),
        pool.state.accounts[i].in_flight < u64::MAX,
        pool.state.sequence < u64::MAX,
    ensures
        ({
            let after = pool.with_selection(i, session, at);
            &&& after.state.accounts[i] == (AccountStateView {
                in_flight: (pool.state.accounts[i].in_flight + 1) as u64,
                selected: (pool.state.sequence + 1) as u64,
                ..pool.state.accounts[i]
            })
            &&& after.state.sequence == pool.state.sequence + 1
            &&& after.state.recent == pool.state.recent
            &&& after.config == pool.config
            &&& after.bindings == pool.bindings
            &&& session is None ==> after.state.routing == pool.state.routing
        }),
{
}

proof fn lemma_best_of(pool: PoolView, ask: Ask, count: int)
    requires
        0 <= count <= pool.state.accounts.len(),
        exists|j: int| 0 <= j < count && #[trigger] pool.eligible(j, ask),
    ensures
        exists|i: int| #[trigger]
            pool.eligible(i, ask) && 0 <= i < count && forall|j: int|
                0 <= j < count && #[trigger] pool.eligible(j, ask) ==> pool.precedes(i, j, ask.at),
    decreases count,
{
    let last = count - 1;
    if exists|j: int| 0 <= j < last && #[trigger] pool.eligible(j, ask) {
        lemma_best_of(pool, ask, last);
        let i = choose|i: int| #[trigger]
            pool.eligible(i, ask) && 0 <= i < last && forall|j: int|
                0 <= j < last && #[trigger] pool.eligible(j, ask) ==> pool.precedes(i, j, ask.at);
        if pool.eligible(last, ask) && !pool.precedes(i, last, ask.at) {
            assert forall|j: int| 0 <= j < count && #[trigger] pool.eligible(j, ask) implies pool.precedes(
                last,
                j,
                ask.at,
            ) by {
                if j < last {
                    assert(pool.precedes(i, j, ask.at));
                }
            }
        } else {
            assert forall|j: int| 0 <= j < count && #[trigger] pool.eligible(j, ask) implies pool.precedes(
                i,
                j,
                ask.at,
            ) by {}
        }
    } else {
        let j = choose|j: int| 0 <= j < count && #[trigger] pool.eligible(j, ask);
        assert(j == last);
        assert forall|k: int| 0 <= k < count && #[trigger] pool.eligible(k, ask) implies pool.precedes(
            last,
            k,
            ask.at,
        ) by {}
    }
}

/// Where an account can serve a request, one is chosen, and only one.
pub proof fn one_account_is_chosen(pool: PoolView, session: Option<Seq<char>>, ask: Ask, j: int)
    requires
        pool.eligible(j, ask),
    ensures
        exists|i: int| #[trigger] pool.chosen(i, session, ask),
        forall|a: int, b: int| #[trigger]
            pool.chosen(a, session, ask) && #[trigger] pool.chosen(b, session, ask) ==> a == b,
        forall|i: int| #[trigger] pool.chosen(i, session, ask) ==> pool.eligible(i, ask),
{
    let count = pool.state.accounts.len() as int;
    lemma_best_of(pool, ask, count);
    let i = choose|i: int| #[trigger]
        pool.eligible(i, ask) && 0 <= i < count && forall|j: int|
            0 <= j < count && #[trigger] pool.eligible(j, ask) ==> pool.precedes(i, j, ask.at);
    assert(pool.best(i, ask));
    let affinity = match session {
        Some(key) => pool.bound(RouteKind::Session, key, ask.at),
        None => None,
    };
    match affinity {
        Some(idx) if pool.eligible(idx, ask) => {
            assert(pool.chosen(idx, session, ask));
        },
        _ => {
            assert(pool.chosen(i, session, ask));
            assert forall|a: int, b: int| #[trigger]
                pool.chosen(a, session, ask) && #[trigger] pool.chosen(b, session, ask) implies a
                == b by {
                assert(pool.precedes(a, b, ask.at));
                assert(pool.precedes(b, a, ask.at));
            }
        },
    }
}

} // verus!
