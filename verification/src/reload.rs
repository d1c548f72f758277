//! Applying a changed configuration to a running pool.
//!
//! Accounts are known by their names. The list of accounts never shrinks: an account that is gone
//! from the configuration is disabled, and one that comes back takes its old place.
use crate::config::Account;
use crate::config::AccountView;
use crate::config::Config;
use crate::config::ConfigError;
use crate::config::ConfigView;
use crate::identity::account_binding;
use crate::level::Level;
use crate::pool::fresh_account;
use crate::pool::AccountStateView;
use crate::pool::Pool;
use crate::pool::PoolView;
use crate::pool::StateView;
use crate::text::owned;
use crate::text::same;
use vstd::prelude::*;

verus! {

/// What a reload changed, by the names of the accounts.
#[derive(Debug)]
pub struct Reload {
    pub added: Vec<String>,
    pub updated: Vec<String>,
    pub removed: Vec<String>,
    /// Settings other than accounts differ; they apply after a restart.
    pub restart_required: bool,
}

/// What a reload changed.
#[verifier::ext_equal]
pub struct ReloadView {
    pub added: Seq<Seq<char>>,
    pub updated: Seq<Seq<char>>,
    pub removed: Seq<Seq<char>>,
    pub restart_required: bool,
}

impl View for Reload {
    type V = ReloadView;

    open spec fn view(&self) -> ReloadView {
        ReloadView {
            added: crate::text::views(self.added@),
            updated: crate::text::views(self.updated@),
            removed: crate::text::views(self.removed@),
            restart_required: self.restart_required,
        }
    }
}

/// The first account with a name.
pub open spec fn account_named(accounts: Seq<AccountView>, name: Seq<char>) -> Option<AccountView>
    decreases accounts.len(),
{
    if accounts.len() == 0 {
        None
    } else if accounts[0].name == name {
        Some(accounts[0])
    } else {
        account_named(accounts.drop_first(), name)
    }
}

/// The configuration of an account after a reload.
pub open spec fn next_account(account: AccountView, next: Seq<AccountView>) -> AccountView {
    match account_named(next, account.name) {
        Some(changed) => changed,
        None => account,
    }
}

/// The state of an account after a reload. The configured state applies where it changed or the
/// account comes back; else an account stays enabled or disabled as it was.
pub open spec fn next_state(
    state: AccountStateView,
    account: AccountView,
    next: Seq<AccountView>,
    default: Level,
) -> AccountStateView {
    match account_named(next, account.name) {
        Some(changed) => AccountStateView {
            disabled: if state.removed || account.disabled != changed.disabled {
                changed.disabled
            } else {
                state.disabled
            },
            last_error: if state.removed {
                None
            } else {
                state.last_error
            },
            threshold_percent: changed.threshold(default),
            removed: false,
            ..state
        },
        None => if state.removed {
            state
        } else {
            AccountStateView {
                disabled: true,
                last_error: Some("removed_from_config"@),
                removed: true,
                ..state
            }
        },
    }
}

/// The account changed, or it comes back.
pub open spec fn is_updated(
    state: AccountStateView,
    account: AccountView,
    next: Seq<AccountView>,
) -> bool {
    account_named(next, account.name) matches Some(changed) && (changed != account || state.removed)
}

/// The account is gone from the configuration for the first time.
pub open spec fn is_removed(
    state: AccountStateView,
    account: AccountView,
    next: Seq<AccountView>,
) -> bool {
    account_named(next, account.name) is None && !state.removed
}

/// The accounts that a reload appends.
pub open spec fn new_accounts(known: Seq<AccountView>, next: Seq<AccountView>) -> Seq<AccountView>
    decreases next.len(),
{
    if next.len() == 0 {
        Seq::empty()
    } else {
        let before = new_accounts(known, next.drop_last());
        if crate::config::named(known, next.last().name) {
            before
        } else {
            before.push(next.last())
        }
    }
}

/// The names of accounts.
pub open spec fn names(accounts: Seq<AccountView>) -> Seq<Seq<char>> {
    accounts.map_values(|account: AccountView| account.name)
}

impl PoolView {
    /// The names of the accounts among the first `count` that a reload updates.
    pub open spec fn updated(self, next: Seq<AccountView>, count: int) -> Seq<Seq<char>>
        decreases count,
    {
        if count <= 0 {
            Seq::empty()
        } else {
            let before = self.updated(next, count - 1);
            let account = self.config.accounts[count - 1];
            if is_updated(self.state.accounts[count - 1], account, next) {
                before.push(account.name)
            } else {
                before
            }
        }
    }

    /// The names of the accounts among the first `count` that a reload takes out of use.
    pub open spec fn removed(self, next: Seq<AccountView>, count: int) -> Seq<Seq<char>>
        decreases count,
    {
        if count <= 0 {
            Seq::empty()
        } else {
            let before = self.removed(next, count - 1);
            let account = self.config.accounts[count - 1];
            if is_removed(self.state.accounts[count - 1], account, next) {
                before.push(account.name)
            } else {
                before
            }
        }
    }

    /// The configured accounts after a reload.
    pub open spec fn reloaded_accounts(self, next: Seq<AccountView>) -> Seq<AccountView> {
        self.config.accounts.map_values(|account: AccountView| next_account(account, next))
            + new_accounts(self.config.accounts, next)
    }

    /// The states of the accounts after a reload.
    pub open spec fn reloaded_states(self, next: Seq<AccountView>) -> Seq<AccountStateView> {
        let default = self.config.settings.threshold_percent;
        Seq::new(
            self.state.accounts.len(),
            |i: int| next_state(self.state.accounts[i], self.config.accounts[i], next, default),
        ) + new_accounts(self.config.accounts, next).map_values(
            |account: AccountView| crate::pool::new_account(account, default),
        )
    }

    /// The pool after a reload. The settings stay as they are until a restart.
    pub open spec fn reloaded(self, next: Seq<AccountView>) -> PoolView {
        PoolView {
            config: ConfigView { accounts: self.reloaded_accounts(next), ..self.config },
            bindings: self.reloaded_accounts(next).map_values(
                |account: AccountView| crate::identity::binding_of(account),
            ),
            state: StateView { accounts: self.reloaded_states(next), ..self.state },
        }
    }

    /// What a reload changes.
    pub open spec fn reload_summary(self, next: ConfigView) -> ReloadView {
        let count = self.config.accounts.len() as int;
        ReloadView {
            added: names(new_accounts(self.config.accounts, next.accounts)),
            updated: self.updated(next.accounts, count),
            removed: self.removed(next.accounts, count),
            restart_required: self.config.settings != next.settings,
        }
    }
}

/// The first account with a name.
fn find_account<'a>(accounts: &'a Vec<Account>, name: &str) -> (account: Option<&'a Account>)
    ensures
        match account {
            Some(found) => account_named(crate::config::account_views(accounts@), name@) == Some(
                found@,
            ),
            None => account_named(crate::config::account_views(accounts@), name@) is None,
        },
{
    let ghost all = crate::config::account_views(accounts@);
    let mut i: usize = 0;
    assert(all.skip(0) =~= all);
    while i < accounts.len()
        invariant
            i <= accounts@.len(),
            all == crate::config::account_views(accounts@),
            account_named(all, name@) == account_named(all.skip(i as int), name@),
        decreases accounts@.len() - i,
    {
        assert(all.skip(i as int)[0] == accounts@[i as int]@);
        if same(accounts[i].name.as_str(), name) {
            return Some(&accounts[i]);
        }
        assert(all.skip(i as int).drop_first() =~= all.skip(i + 1));
        i = i + 1;
    }
    None
}

proof fn lemma_named_is_found(accounts: Seq<AccountView>, name: Seq<char>)
    ensures
        account_named(accounts, name) is Some <==> crate::config::named(accounts, name),
        account_named(accounts, name) matches Some(found) ==> found.name == name && exists|i: int|
            0 <= i < accounts.len() && #[trigger] accounts[i] == found,
    decreases accounts.len(),
{
    if accounts.len() > 0 {
        let rest = accounts.drop_first();
        lemma_named_is_found(rest, name);
        if accounts[0].name == name {
            assert(crate::config::named(accounts, name));
        } else {
            if crate::config::named(accounts, name) {
                let i = choose|i: int|
                    0 <= i < accounts.len() && (#[trigger] accounts[i]).name == name;
                assert(rest[i - 1].name == name);
            }
            if crate::config::named(rest, name) {
                let i = choose|i: int| 0 <= i < rest.len() && (#[trigger] rest[i]).name == name;
                assert(accounts[i + 1].name == name);
            }
            if let Some(found) = account_named(rest, name) {
                let i = choose|i: int| 0 <= i < rest.len() && #[trigger] rest[i] == found;
                assert(accounts[i + 1] == found);
            }
        }
    }
}

impl Pool {
    /// Applies the accounts of a configuration to the pool, and tells what changed.
    pub fn reload(&mut self, config: Config) -> (result: Result<Reload, ConfigError>)
        requires
            old(self).wf(),
            config.wf(),
        ensures
            final(self).wf(),
            match result {
                Ok(summary) => {
                    &&& config@.error() is None
                    &&& final(self)@ == old(self)@.reloaded(config@.accounts)
                    &&& summary@ == old(self)@.reload_summary(config@)
                },
                Err(error) => config@.error() == Some(error) && final(self)@ == old(self)@,
            },
    {
        match config.validate() {
            Err(error) => return Err(error),
            Ok(()) => {},
        }
        let ghost before = *self;
        let ghost next = config@.accounts;
        let ghost known = before@.config.accounts;
        let restart_required = !self.config.same_settings(&config);
        let default = self.config.threshold_percent;
        let mut accounts: Vec<Account> = Vec::new();
        let mut bindings: Vec<String> = Vec::new();
        let mut updated: Vec<String> = Vec::new();
        let mut removed: Vec<String> = Vec::new();
        let count: usize = self.config.accounts.len();
        let mut i: usize = 0;
        assert(crate::text::views(updated@) =~= before@.updated(next, 0));
        assert(crate::text::views(removed@) =~= before@.removed(next, 0));
        while i < count
            invariant
                before.wf(),
                i <= count,
                count == before.config.accounts@.len(),
                self.config == before.config,
                self.bindings == before.bindings,
                self.state.routing == before.state.routing,
                self.state.sequence == before.state.sequence,
                self.state.recent == before.state.recent,
                default == before.config.threshold_percent,
                next == config@.accounts,
                accounts@.len() == i,
                bindings@.len() == i,
                self.state.accounts@.len() == count,
                forall|k: int|
                    0 <= k < i ==> (#[trigger] accounts@[k])@ == next_account(
                        before@.config.accounts[k],
                        next,
                    ),
                forall|k: int|
                    0 <= k < i ==> (#[trigger] bindings@[k])@ == crate::identity::binding_of(
                        accounts@[k]@,
                    ),
                forall|k: int|
                    0 <= k < i ==> (#[trigger] self.state.accounts@[k]).wf()
                        && self.state.accounts@[k]@ == next_state(
                        before@.state.accounts[k],
                        before@.config.accounts[k],
                        next,
                        default,
                    ),
                forall|k: int|
                    i <= k < count ==> #[trigger] self.state.accounts@[k]
                        == before.state.accounts@[k],
                crate::text::views(updated@) == before@.updated(next, i as int),
                crate::text::views(removed@) == before@.removed(next, i as int),
            decreases count - i,
        {
            let account = &self.config.accounts[i];
            let ghost state = before@.state.accounts[i as int];
            assert(before@.config.accounts[i as int] == account@);
            assert(state == self.state.accounts@[i as int]@);
            assert(before.state.accounts@[i as int].wf());
            let ghost all_updated = crate::text::views(updated@);
            let ghost all_removed = crate::text::views(removed@);
            match find_account(&config.accounts, account.name.as_str()) {
                Some(changed) => {
                    let was_removed = self.state.accounts[i].removed;
                    if was_removed || !changed.same(account) {
                        updated.push(account.name.clone());
                        assert(crate::text::views(updated@) =~= all_updated.push(account@.name));
                    }
                    if was_removed || account.disabled != changed.disabled {
                        self.state.accounts[i].disabled = changed.disabled;
                    }
                    if was_removed {
                        self.state.accounts[i].last_error = None;
                    }
                    self.state.accounts[i].threshold_percent = changed.threshold(default);
                    self.state.accounts[i].removed = false;
                    bindings.push(account_binding(changed));
                    accounts.push(changed.copy());
                },
                None => {
                    bindings.push(account_binding(account));
                    accounts.push(account.copy());
                    if !self.state.accounts[i].removed {
                        removed.push(account.name.clone());
                        assert(crate::text::views(removed@) =~= all_removed.push(account@.name));
                        self.state.accounts[i].disabled = true;
                        self.state.accounts[i].last_error = Some(owned("removed_from_config"));
                        self.state.accounts[i].removed = true;
                    }
                },
            }
            assert(self.state.accounts@[i as int]@ =~= next_state(state, account@, next, default));
            i = i + 1;
        }
        let ghost kept = known.map_values(|account: AccountView| next_account(account, next));
        let ghost kept_states = Seq::new(
            before@.state.accounts.len(),
            |k: int| next_state(before@.state.accounts[k], known[k], next, default),
        );
        assert(crate::config::account_views(accounts@) =~= kept);
        assert(crate::pool::state_views(self.state.accounts@) =~= kept_states);
        let mut added: Vec<String> = Vec::new();
        let mut j: usize = 0;
        proof {
            assert(next.take(0) =~= Seq::<AccountView>::empty());
            assert(kept + new_accounts(known, next.take(0)) =~= kept);
            assert(kept_states + new_accounts(known, next.take(0)).map_values(
                |account: AccountView| crate::pool::new_account(account, default),
            ) =~= kept_states);
            assert(crate::text::views(added@) =~= names(new_accounts(known, next.take(0))));
        }
        while j < config.accounts.len()
            invariant
                before.wf(),
                j <= config.accounts@.len(),
                count == before.config.accounts@.len(),
                known == before@.config.accounts,
                self.config == before.config,
                self.state.routing == before.state.routing,
                self.state.sequence == before.state.sequence,
                self.state.recent == before.state.recent,
                default == before.config.threshold_percent,
                next == config@.accounts,
                bindings@.len() == accounts@.len(),
                self.state.accounts@.len() == accounts@.len(),
                forall|k: int|
                    0 <= k < bindings@.len() ==> (#[trigger] bindings@[k])@
                        == crate::identity::binding_of(accounts@[k]@),
                forall|k: int|
                    0 <= k < self.state.accounts@.len() ==> (
                    #[trigger] self.state.accounts@[k]).wf(),
                crate::config::account_views(accounts@) == kept + new_accounts(
                    known,
                    next.take(j as int),
                ),
                crate::pool::state_views(self.state.accounts@) == kept_states + new_accounts(
                    known,
                    next.take(j as int),
                ).map_values(|account: AccountView| crate::pool::new_account(account, default)),
                crate::text::views(added@) == names(new_accounts(known, next.take(j as int))),
            decreases config.accounts@.len() - j,
        {
            let account = &config.accounts[j];
            let ghost earlier = new_accounts(known, next.take(j as int));
            let ghost later = new_accounts(known, next.take(j + 1));
            proof {
                assert(next[j as int] == account@);
                assert(next.take(j + 1).drop_last() =~= next.take(j as int));
                assert(next.take(j + 1).last() == account@);
                lemma_named_is_found(known, account@.name);
            }
            if find_account(&self.config.accounts, account.name.as_str()).is_none() {
                let ghost views = crate::config::account_views(accounts@);
                let ghost states = crate::pool::state_views(self.state.accounts@);
                let ghost added_names = crate::text::views(added@);
                added.push(account.name.clone());
                bindings.push(account_binding(account));
                let state = fresh_account(account, default);
                let copy = account.copy();
                self.state.accounts.push(state);
                accounts.push(copy);
                proof {
                    assert(later =~= earlier.push(account@));
                    assert(crate::config::account_views(accounts@) =~= views.push(account@));
                    assert(crate::pool::state_views(self.state.accounts@) =~= states.push(state@));
                    assert(crate::text::views(added@) =~= added_names.push(account@.name));
                    assert(kept + later =~= (kept + earlier).push(account@));
                    assert(names(later) =~= names(earlier).push(account@.name));
                    assert(kept_states + later.map_values(
                        |account: AccountView| crate::pool::new_account(account, default),
                    ) =~= (kept_states + earlier.map_values(
                        |account: AccountView| crate::pool::new_account(account, default),
                    )).push(state@));
                }
            }
            j = j + 1;
        }
        proof {
            assert(next.take(next.len() as int) =~= next);
        }
        self.config.accounts = accounts;
        self.bindings = bindings;
        let summary = Reload { added, updated, removed, restart_required };
        proof {
            let target = before@.reloaded(next);
            assert(self@.config =~= target.config);
            assert(self@.bindings =~= target.bindings);
            assert(self@.state =~= target.state);
            assert(self@ =~= target);
            lemma_reloaded_wf(before@, next);
            assert(summary@ =~= before@.reload_summary(config@));
        }
        Ok(summary)
    }
}

proof fn lemma_reloaded_wf(pool: PoolView, next: Seq<AccountView>)
    requires
        pool.wf(),
    ensures
        pool.reloaded(next).wf(),
{
    let after = pool.reloaded(next);
    let count = pool.config.accounts.len() as int;
    assert forall|i: int| 0 <= i < after.state.accounts.len() implies crate::pool::account_wf(
        #[trigger] after.state.accounts[i],
        after.config.accounts[i],
        after.config.settings.threshold_percent,
    ) by {
        if i < count {
            assert(crate::pool::account_wf(
                pool.state.accounts[i],
                pool.config.accounts[i],
                pool.config.settings.threshold_percent,
            ));
            lemma_named_is_found(next, pool.config.accounts[i].name);
        } else {
            assert(Map::<Seq<char>, u64>::empty().dom() =~= Set::empty());
        }
    }
}

/// The list of accounts never shrinks, and each account keeps its place, its name and everything
/// that is known of its use.
pub proof fn accounts_keep_their_places(pool: PoolView, next: Seq<AccountView>, i: int)
    requires
        pool.wf(),
        0 <= i < pool.state.accounts.len(),
    ensures
        ({
            let after = pool.reloaded(next);
            &&& after.state.accounts.len() >= pool.state.accounts.len()
            &&& after.state.accounts[i].name == pool.state.accounts[i].name
            &&& after.config.accounts[i].name == pool.config.accounts[i].name
            &&& after.state.accounts[i].in_flight == pool.state.accounts[i].in_flight
            &&& after.state.accounts[i].hold_until == pool.state.accounts[i].hold_until
            &&& after.state.accounts[i].quotas == pool.state.accounts[i].quotas
            &&& after.state.accounts[i].requests == pool.state.accounts[i].requests
        }),
{
    lemma_named_is_found(next, pool.config.accounts[i].name);
}

/// An account that is gone from the configuration serves no request.
pub proof fn removed_account_is_not_eligible(
    pool: PoolView,
    next: Seq<AccountView>,
    i: int,
    ask: crate::select::Ask,
)
    requires
        pool.wf(),
        0 <= i < pool.state.accounts.len(),
        !crate::config::named(next, pool.config.accounts[i].name),
        !pool.state.accounts[i].removed,
    ensures
        !pool.reloaded(next).eligible(i, ask),
{
    lemma_named_is_found(next, pool.config.accounts[i].name);
}

proof fn lemma_new_accounts(known: Seq<AccountView>, next: Seq<AccountView>)
    ensures
        forall|k: int|
            0 <= k < new_accounts(known, next).len() ==> !crate::config::named(
                known,
                (#[trigger] new_accounts(known, next)[k]).name,
            ) && next.contains(new_accounts(known, next)[k]),
        forall|k: int|
            0 <= k < next.len() ==> crate::config::named(known, (#[trigger] next[k]).name)
                || new_accounts(known, next).contains(next[k]),
    decreases next.len(),
{
    if next.len() > 0 {
        let rest = next.drop_last();
        let earlier = new_accounts(known, rest);
        let all = new_accounts(known, next);
        lemma_new_accounts(known, rest);
        assert forall|k: int| 0 <= k < all.len() implies !crate::config::named(
            known,
            (#[trigger] all[k]).name,
        ) && next.contains(all[k]) by {
            if k < earlier.len() {
                assert(all[k] == earlier[k]);
                let j = choose|j: int| 0 <= j < rest.len() && rest[j] == earlier[k];
                assert(next[j] == all[k]);
            } else {
                assert(next[next.len() - 1] == all[k]);
            }
        }
        assert forall|k: int| 0 <= k < next.len() implies crate::config::named(
            known,
            (#[trigger] next[k]).name,
        ) || all.contains(next[k]) by {
            if k < rest.len() {
                assert(rest[k] == next[k]);
                if earlier.contains(next[k]) {
                    let j = choose|j: int| 0 <= j < earlier.len() && earlier[j] == next[k];
                    assert(all[j] == next[k]);
                }
            } else if !crate::config::named(known, next[k].name) {
                assert(all[all.len() - 1] == next[k]);
            }
        }
    }
}

/// The account with a name in a valid configuration is the only one.
proof fn lemma_only_one(next: Seq<AccountView>, i: int)
    requires
        crate::config::accounts_error(next) is None,
        0 <= i < next.len(),
    ensures
        account_named(next, next[i].name) == Some(next[i]),
{
    lemma_named_is_found(next, next[i].name);
    assert(crate::config::named(next, next[i].name));
    let found = account_named(next, next[i].name)->Some_0;
    let j = choose|j: int| 0 <= j < next.len() && #[trigger] next[j] == found;
    if j < i {
        crate::config::valid_names_differ(next, j, i);
    } else if i < j {
        crate::config::valid_names_differ(next, i, j);
    }
}

proof fn lemma_nothing_new(known: Seq<AccountView>, next: Seq<AccountView>)
    requires
        forall|k: int|
            0 <= k < next.len() ==> crate::config::named(known, (#[trigger] next[k]).name),
    ensures
        new_accounts(known, next) == Seq::<AccountView>::empty(),
    decreases next.len(),
{
    if next.len() > 0 {
        let rest = next.drop_last();
        assert forall|k: int| 0 <= k < rest.len() implies crate::config::named(
            known,
            (#[trigger] rest[k]).name,
        ) by {
            assert(rest[k] == next[k]);
        }
        lemma_nothing_new(known, rest);
        assert(crate::config::named(known, next[next.len() - 1].name));
    }
}

proof fn lemma_nothing_changed(pool: PoolView, next: Seq<AccountView>, count: int)
    requires
        count <= pool.config.accounts.len(),
        forall|i: int|
            0 <= i < pool.config.accounts.len() ==> !is_updated(
                #[trigger] pool.state.accounts[i],
                pool.config.accounts[i],
                next,
            ) && !is_removed(pool.state.accounts[i], pool.config.accounts[i], next),
    ensures
        pool.updated(next, count) == Seq::<Seq<char>>::empty(),
        pool.removed(next, count) == Seq::<Seq<char>>::empty(),
    decreases count,
{
    if count > 0 {
        lemma_nothing_changed(pool, next, count - 1);
        assert(!is_updated(
            pool.state.accounts[count - 1],
            pool.config.accounts[count - 1],
            next,
        ));
    }
}

/// Loading the same valid configuration again changes nothing, and reports nothing but a restart
/// that is still due.
pub proof fn reloading_twice_changes_nothing(pool: PoolView, next: ConfigView)
    requires
        pool.wf(),
        next.error() is None,
    ensures
        ({
            let once = pool.reloaded(next.accounts);
            &&& once.reloaded(next.accounts) == once
            &&& once.reload_summary(next) == (ReloadView {
                added: Seq::empty(),
                updated: Seq::empty(),
                removed: Seq::empty(),
                restart_required: pool.config.settings != next.settings,
            })
        }),
{
    let wanted = next.accounts;
    let once = pool.reloaded(wanted);
    let known = pool.config.accounts;
    let fresh = new_accounts(known, wanted);
    let default = pool.config.settings.threshold_percent;
    lemma_reloaded_wf(pool, wanted);
    lemma_new_accounts(known, wanted);
    assert forall|i: int| 0 <= i < once.config.accounts.len() implies {
        let account = once.config.accounts[i];
        let state = #[trigger] once.state.accounts[i];
        &&& next_account(account, wanted) == account
        &&& next_state(state, account, wanted, default) == state
        &&& !is_updated(state, account, wanted)
        &&& !is_removed(state, account, wanted)
    } by {
        let account = once.config.accounts[i];
        let state = once.state.accounts[i];
        if i < known.len() {
            lemma_named_is_found(wanted, known[i].name);
            if let Some(found) = account_named(wanted, known[i].name) {
                let j = choose|j: int| 0 <= j < wanted.len() && #[trigger] wanted[j] == found;
                lemma_only_one(wanted, j);
                assert(account == found);
                assert(next_state(state, account, wanted, default) =~= state);
            } else {
                assert(account == known[i]);
            }
        } else {
            let k = i - known.len();
            assert(account == fresh[k]);
            assert(wanted.contains(fresh[k]));
            let j = choose|j: int| 0 <= j < wanted.len() && wanted[j] == fresh[k];
            lemma_only_one(wanted, j);
            assert(state == crate::pool::new_account(account, default));
            assert(next_state(state, account, wanted, default) =~= state);
        }
    }
    assert forall|k: int| 0 <= k < wanted.len() implies crate::config::named(
        once.config.accounts,
        (#[trigger] wanted[k]).name,
    ) by {
        if crate::config::named(known, wanted[k].name) {
            let i = choose|i: int| 0 <= i < known.len() && (#[trigger] known[i]).name
                == wanted[k].name;
            lemma_named_is_found(wanted, known[i].name);
            assert(once.config.accounts[i].name == wanted[k].name);
        } else {
            assert(fresh.contains(wanted[k]));
            let j = choose|j: int| 0 <= j < fresh.len() && fresh[j] == wanted[k];
            assert(once.config.accounts[known.len() + j].name == wanted[k].name);
        }
    }
    lemma_nothing_new(once.config.accounts, wanted);
    lemma_nothing_changed(once, wanted, once.config.accounts.len() as int);
    assert(once.reloaded_accounts(wanted) =~= once.config.accounts) by {
        assert forall|i: int| 0 <= i < once.config.accounts.len() implies once.reloaded_accounts(
            wanted,
        )[i] == #[trigger] once.config.accounts[i] by {
            let state = once.state.accounts[i];
            assert(next_account(once.config.accounts[i], wanted) == once.config.accounts[i]);
        }
    }
    assert(once.reloaded_states(wanted) =~= once.state.accounts) by {
        assert forall|i: int| 0 <= i < once.state.accounts.len() implies
            once.reloaded_states(wanted)[i] == #[trigger] once.state.accounts[i] by {}
    }
    assert(once.reloaded(wanted) =~= once);
    assert(once.reload_summary(next) =~= ReloadView {
        added: Seq::empty(),
        updated: Seq::empty(),
        removed: Seq::empty(),
        restart_required: pool.config.settings != next.settings,
    });
}

/// What a reload does to a known account: one that the configuration still has takes its settings,
/// comes back where it had been removed, and is switched only where the configuration says otherwise
/// than before; one that it no longer has is switched off and says so.
pub proof fn reload_switches_as_the_configuration_says(
    state: AccountStateView,
    account: AccountView,
    next: Seq<AccountView>,
    default: Level,
    i: int,
)
    ensures
        ({
            let after = next_state(state, account, next, default);
            let found = 0 <= i < next.len() && next[i].name == account.name && forall|j: int|
                0 <= j < i ==> (#[trigger] next[j]).name != account.name;
            let gone = forall|j: int|
                0 <= j < next.len() ==> (#[trigger] next[j]).name != account.name;
            &&& found ==> {
                &&& !after.removed
                &&& after.threshold_percent == next[i].threshold(default)
                &&& state.removed ==> after.disabled == next[i].disabled && after.last_error is None
                &&& !state.removed && account.disabled != next[i].disabled ==> after.disabled
                    == next[i].disabled
                &&& !state.removed && account.disabled == next[i].disabled ==> after.disabled
                    == state.disabled
                &&& !state.removed ==> after.last_error == state.last_error
                &&& next_account(account, next) == next[i]
            }
            &&& gone ==> {
                &&& after.removed
                &&& next_account(account, next) == account
                &&& !state.removed ==> after.disabled && after.last_error == Some(
                    "removed_from_config"@,
                )
                &&& state.removed ==> after == state
            }
        }),
{
    lemma_account_named(next, account.name, i);
}

proof fn lemma_account_named(accounts: Seq<AccountView>, name: Seq<char>, i: int)
    ensures
        0 <= i < accounts.len() && accounts[i].name == name && (forall|j: int|
            0 <= j < i ==> (#[trigger] accounts[j]).name != name) ==> account_named(accounts, name)
            == Some(accounts[i]),
        (forall|j: int| 0 <= j < accounts.len() ==> (#[trigger] accounts[j]).name != name)
            ==> account_named(accounts, name) is None,
    decreases accounts.len(),
{
    if accounts.len() > 0 {
        let rest = accounts.drop_first();
        lemma_account_named(rest, name, i - 1);
        assert forall|j: int| 0 <= j < rest.len() implies #[trigger] rest[j] == accounts[j + 1] by {}
        if i > 0 {
            assert(0 <= i - 1);
        }
    }
}

/// The summary of a reload names what was added, changed and removed, and asks for a restart exactly
/// where something other than the accounts differs.
pub proof fn reload_is_summarized(pool: PoolView, next: ConfigView, name: Seq<char>, i: int)
    requires
        pool.wf(),
    ensures
        ({
            let summary = pool.reload_summary(next);
            &&& summary.added.contains(name) <==> crate::config::named(next.accounts, name)
                && !crate::config::named(pool.config.accounts, name)
            &&& summary.restart_required <==> pool.config.settings != next.settings
            &&& 0 <= i < pool.config.accounts.len() && !pool.state.accounts[i].removed
                && !crate::config::named(next.accounts, pool.config.accounts[i].name)
                ==> summary.removed.contains(pool.config.accounts[i].name)
        }),
{
    lemma_added(pool.config.accounts, next.accounts, name);
    let count = pool.config.accounts.len() as int;
    if 0 <= i < count && !pool.state.accounts[i].removed && !crate::config::named(
        next.accounts,
        pool.config.accounts[i].name,
    ) {
        lemma_account_named(next.accounts, pool.config.accounts[i].name, 0);
        lemma_removed(pool, next.accounts, count, i);
    }
}

proof fn lemma_added(known: Seq<AccountView>, next: Seq<AccountView>, name: Seq<char>)
    ensures
        names(new_accounts(known, next)).contains(name) <==> crate::config::named(next, name)
            && !crate::config::named(known, name),
    decreases next.len(),
{
    if next.len() > 0 {
        let rest = next.drop_last();
        let last = next.len() - 1;
        lemma_added(known, rest, name);
        let before = new_accounts(known, rest);
        let all = new_accounts(known, next);
        assert forall|j: int| 0 <= j < last implies #[trigger] next[j] == rest[j] by {}
        if names(before).contains(name) {
            let k = names(before).index_of(name);
            assert(names(all)[k] == names(before)[k]);
        }
        if names(all).contains(name) {
            let k = names(all).index_of(name);
            if k < before.len() {
                assert(names(before)[k] == names(all)[k]);
            } else {
                assert(next[last].name == name);
            }
        }
        if crate::config::named(next, name) && !crate::config::named(known, name) {
            let j = choose|j: int| 0 <= j < next.len() && (#[trigger] next[j]).name == name;
            if j < last {
                assert(rest[j].name == name);
            } else {
                assert(names(all)[all.len() - 1] == name);
            }
        }
        if crate::config::named(rest, name) {
            let j = choose|j: int| 0 <= j < rest.len() && (#[trigger] rest[j]).name == name;
            assert(next[j].name == name);
        }
    } else {
        assert(names(new_accounts(known, next)).len() == 0);
    }
}

proof fn lemma_removed(pool: PoolView, next: Seq<AccountView>, count: int, i: int)
    requires
        0 <= i < count <= pool.config.accounts.len(),
        is_removed(pool.state.accounts[i], pool.config.accounts[i], next),
    ensures
        pool.removed(next, count).contains(pool.config.accounts[i].name),
    decreases count,
{
    let name = pool.config.accounts[i].name;
    let before = pool.removed(next, count - 1);
    let all = pool.removed(next, count);
    if i < count - 1 {
        lemma_removed(pool, next, count - 1, i);
        assert(all[before.index_of(name)] == name);
    } else {
        assert(all[all.len() - 1] == name);
    }
}

} // verus!
