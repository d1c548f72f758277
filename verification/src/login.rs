//! Adding an account to the configuration after a login.
//!
//! An account is known by its workspace and its user: members of one workspace keep separate
//! accounts, and a login of a known account renews its tokens and keeps its settings.
use crate::codec::hashed;
use crate::config::name_char;
use crate::config::token_file;
use crate::config::validate_name;
use crate::config::Account;
use crate::config::AccountView;
use crate::config::Config;
use crate::config::ConfigView;
use crate::config::Credential;
use crate::config::CredentialView;
use crate::config::Kind;
use crate::config::SettingsView;
use crate::json::Json;
use crate::oauth::StoredTokens;
use crate::oauth::StoredView;
use crate::paths::join;
use crate::paths::replace_extension;
use crate::text::chars_of;
use crate::text::concat;
use crate::text::concat3;
use crate::text::option_same;
use crate::text::owned;
use crate::text::piece;
use crate::text::same;
use vstd::prelude::*;
use vstd::string::*;

verus! {

/// How many characters of an address start the name of an account.
pub const PREFIX_LENGTH: usize = 48;

/// Why an account cannot be added.
#[derive(Clone, Copy, Debug, PartialEq, Eq, Structural)]
pub enum LoginError {
    /// The account is stored under another name.
    OtherName,
    /// The name is not one that an account can have.
    Name,
    /// The name belongs to another account.
    OtherIdentity,
    /// The account of this name has no managed credentials.
    External,
    /// The file of tokens holds those of another account.
    StoredIdentity,
    /// There is a file of tokens that cannot be read, and no account that it belongs to.
    Unregistered,
}

/// What is told of an error.
pub open spec fn error_text(error: LoginError) -> Seq<char> {
    match error {
        LoginError::OtherName => "this account is already stored under another name"@,
        LoginError::Name => crate::config::error_text(crate::config::ConfigError::Name),
        LoginError::OtherIdentity => "account name belongs to another identity; use another --name"@,
        LoginError::External => "account uses external credentials; use another --name"@,
        LoginError::StoredIdentity => "stored account identity differs; use another --name"@,
        LoginError::Unregistered => "unregistered credential file exists; use another --name"@,
    }
}

impl LoginError {
    /// What is told of the error.
    pub fn message(self) -> (text: &'static str)
        ensures
            text@ == error_text(self),
    {
        match self {
            LoginError::OtherName => "this account is already stored under another name",
            LoginError::Name => crate::config::ConfigError::Name.message(),
            LoginError::OtherIdentity =>
                "account name belongs to another identity; use another --name",
            LoginError::External => "account uses external credentials; use another --name",
            LoginError::StoredIdentity => "stored account identity differs; use another --name",
            LoginError::Unregistered => "unregistered credential file exists; use another --name",
        }
    }
}

/// The account is the one that tokens are for.
pub open spec fn has_identity(account: AccountView, tokens: StoredView) -> bool {
    account.account_id == Some(tokens.account_id) && account.user_id == Some(tokens.user_id)
}

/// The first account that tokens are for.
pub open spec fn identity_at(accounts: Seq<AccountView>, tokens: StoredView) -> Option<int>
    decreases accounts.len(),
{
    if accounts.len() == 0 {
        None
    } else {
        match identity_at(accounts.drop_last(), tokens) {
            Some(i) => Some(i),
            None => if has_identity(accounts.last(), tokens) {
                Some(accounts.len() - 1)
            } else {
                None
            },
        }
    }
}

/// The first account of a name.
pub open spec fn name_at(accounts: Seq<AccountView>, name: Seq<char>) -> Option<int>
    decreases accounts.len(),
{
    if accounts.len() == 0 {
        None
    } else {
        match name_at(accounts.drop_last(), name) {
            Some(i) => Some(i),
            None => if accounts.last().name == name {
                Some(accounts.len() - 1)
            } else {
                None
            },
        }
    }
}

/// The start of a name that is made from an address: what cannot stand in a name is replaced.
pub open spec fn name_prefix(email: Option<Seq<char>>) -> Seq<char> {
    let source = match email {
        Some(address) => address,
        None => "account"@,
    };
    let length = if source.len() < PREFIX_LENGTH {
        source.len()
    } else {
        PREFIX_LENGTH as nat
    };
    Seq::new(
        length,
        |i: int|
            if crate::config::is_name_char(source[i]) {
                source[i]
            } else {
                '_'
            },
    )
}

/// The name that an account gets where none is asked for.
pub open spec fn generated_name(tokens: StoredView) -> Seq<char> {
    name_prefix(tokens.email) + "-"@ + crate::identity::text_digest(
        tokens.user_id + ":"@ + tokens.account_id,
    ).take(8)
}

/// The name under which an account is added.
pub open spec fn chosen_name(
    accounts: Seq<AccountView>,
    requested: Option<Seq<char>>,
    tokens: StoredView,
) -> Result<Seq<char>, LoginError> {
    match identity_at(accounts, tokens) {
        Some(i) => if requested matches Some(name) && name != accounts[i].name {
            Err(LoginError::OtherName)
        } else {
            Ok(accounts[i].name)
        },
        None => match requested {
            Some(name) => Ok(name),
            None => Ok(generated_name(tokens)),
        },
    }
}

/// Where a new account has its tokens.
pub open spec fn new_token_path(path: Seq<char>, name: Seq<char>) -> Seq<char> {
    crate::paths::joined(
        crate::paths::joined(crate::paths::with_extension(path, "state"@), "accounts"@),
        name + ".json"@,
    )
}

/// What is done with a login.
pub struct Plan {
    /// The name of the account.
    pub name: String,
    /// Where its tokens are stored.
    pub token_path: String,
    /// The configuration has the account.
    pub registered: bool,
}

/// What a plan holds.
#[verifier::ext_equal]
pub struct PlanView {
    pub name: Seq<char>,
    pub token_path: Seq<char>,
    pub registered: bool,
}

impl View for Plan {
    type V = PlanView;

    open spec fn view(&self) -> PlanView {
        PlanView {
            name: self.name@,
            token_path: self.token_path@,
            registered: self.registered,
        }
    }
}

/// What is done with a login, for the configuration at a path.
pub open spec fn planned(
    path: Seq<char>,
    accounts: Seq<AccountView>,
    requested: Option<Seq<char>>,
    tokens: StoredView,
) -> Result<PlanView, LoginError> {
    match chosen_name(accounts, requested, tokens) {
        Err(error) => Err(error),
        Ok(name) => if !crate::config::valid_name(name) {
            Err(LoginError::Name)
        } else {
            match name_at(accounts, name) {
                Some(i) => if !has_identity(accounts[i], tokens) {
                    Err(LoginError::OtherIdentity)
                } else {
                    match accounts[i].credential {
                        CredentialView::Managed { path: token_path } => Ok(
                            PlanView { name, token_path, registered: true },
                        ),
                        _ => Err(LoginError::External),
                    }
                },
                None => Ok(
                    PlanView { name, token_path: new_token_path(path, name), registered: false },
                ),
            }
        },
    }
}

/// The account that a login adds.
pub open spec fn added(plan: PlanView, tokens: StoredView) -> AccountView {
    AccountView {
        name: plan.name,
        kind: Kind::Chatgpt,
        base_url: None,
        usage_url: None,
        account_id: Some(tokens.account_id),
        user_id: Some(tokens.user_id),
        credential: CredentialView::Managed { path: plan.token_path },
        priority: 0,
        disabled: false,
        groups: Seq::empty(),
        models: Seq::empty(),
        threshold_percent: None,
        auto_reset: false,
    }
}

/// The configuration after a login.
pub open spec fn registered(
    config: ConfigView,
    path: Seq<char>,
    plan: PlanView,
    tokens: StoredView,
) -> ConfigView {
    ConfigView {
        settings: SettingsView {
            client_token_file: match config.settings.client_token_file {
                Some(file) => Some(file),
                None => Some(
                    crate::paths::joined(
                        crate::paths::with_extension(path, "state"@),
                        "proxy.token"@,
                    ),
                ),
            },
            ..config.settings
        },
        accounts: if plan.registered {
            config.accounts
        } else {
            config.accounts.push(added(plan, tokens))
        },
    }
}

fn is_identity(account: &Account, tokens: &StoredTokens) -> (yes: bool)
    ensures
        yes == has_identity(account@, tokens@),
{
    option_same(&account.account_id, tokens.account_id.as_str()) && option_same(
        &account.user_id,
        tokens.user_id.as_str(),
    )
}

fn find_identity(accounts: &Vec<Account>, tokens: &StoredTokens) -> (found: Option<usize>)
    ensures
        match found {
            Some(i) => i < accounts@.len() && identity_at(
                crate::config::account_views(accounts@),
                tokens@,
            ) == Some(i as int),
            None => identity_at(crate::config::account_views(accounts@), tokens@) is None,
        },
{
    let ghost all = crate::config::account_views(accounts@);
    let mut found: Option<usize> = None;
    let mut i: usize = 0;
    while i < accounts.len()
        invariant
            i <= accounts@.len(),
            all == crate::config::account_views(accounts@),
            match found {
                Some(k) => k < i && identity_at(all.take(i as int), tokens@) == Some(k as int),
                None => identity_at(all.take(i as int), tokens@) is None,
            },
        decreases accounts@.len() - i,
    {
        assert(all.take(i + 1).drop_last() =~= all.take(i as int));
        assert(all.take(i + 1).last() == accounts@[i as int]@);
        if found.is_none() && is_identity(&accounts[i], tokens) {
            found = Some(i);
        }
        i = i + 1;
    }
    assert(all.take(accounts@.len() as int) =~= all);
    found
}

fn find_name(accounts: &Vec<Account>, name: &str) -> (found: Option<usize>)
    ensures
        match found {
            Some(i) => i < accounts@.len() && name_at(
                crate::config::account_views(accounts@),
                name@,
            ) == Some(i as int),
            None => name_at(crate::config::account_views(accounts@), name@) is None,
        },
{
    let ghost all = crate::config::account_views(accounts@);
    let mut found: Option<usize> = None;
    let mut i: usize = 0;
    while i < accounts.len()
        invariant
            i <= accounts@.len(),
            all == crate::config::account_views(accounts@),
            match found {
                Some(k) => k < i && name_at(all.take(i as int), name@) == Some(k as int),
                None => name_at(all.take(i as int), name@) is None,
            },
        decreases accounts@.len() - i,
    {
        assert(all.take(i + 1).drop_last() =~= all.take(i as int));
        assert(all.take(i + 1).last() == accounts@[i as int]@);
        if found.is_none() && same(accounts[i].name.as_str(), name) {
            found = Some(i);
        }
        i = i + 1;
    }
    assert(all.take(accounts@.len() as int) =~= all);
    found
}

fn prefix_of(email: &Option<String>) -> (prefix: String)
    ensures
        prefix@ == name_prefix(crate::text::option_view(*email)),
{
    let source = match email {
        Some(address) => chars_of(address.as_str()),
        None => chars_of("account"),
    };
    let ghost wanted = name_prefix(crate::text::option_view(*email));
    let mut prefix = String::new();
    let mut i: usize = 0;
    while i < source.len() && i < PREFIX_LENGTH
        invariant
            i <= source@.len(),
            i <= PREFIX_LENGTH,
            source@ == (match *email {
                Some(address) => address@,
                None => "account"@,
            }),
            wanted == name_prefix(crate::text::option_view(*email)),
            prefix@ == wanted.take(i as int),
        decreases source@.len() - i,
    {
        let letter = source[i];
        let kept = if name_char(letter) {
            letter
        } else {
            '_'
        };
        prefix.push(kept);
        i = i + 1;
        assert(prefix@ =~= wanted.take(i as int));
    }
    assert(prefix@ =~= wanted);
    prefix
}

/// The name that an account gets where none is asked for. Any account can have it.
pub fn generate_name(tokens: &StoredTokens) -> (name: String)
    ensures
        name@ == generated_name(tokens@),
        crate::config::valid_name(name@),
{
    let prefix = prefix_of(&tokens.email);
    let identity = concat3(tokens.user_id.as_str(), ":", tokens.account_id.as_str());
    let digest = hashed(identity.as_str().as_bytes());
    let letters = chars_of(digest.as_str());
    let suffix = piece(&letters, 0, 8);
    assert(suffix@ =~= digest@.take(8));
    let name = concat3(prefix.as_str(), "-", suffix.as_str());
    proof {
        reveal_strlit("-");
        assert forall|i: int| 0 <= i < name@.len() implies crate::config::is_name_char(
            #[trigger] name@[i],
        ) by {
            if i < prefix@.len() {
                assert(name@[i] == prefix@[i]);
            } else if i == prefix@.len() {
                assert(name@[i] == '-');
            } else {
                assert(name@[i] == digest@[i - prefix@.len() - 1]);
                assert(crate::codec::is_letter(digest@[i - prefix@.len() - 1]));
            }
        }
    }
    name
}

/// What is done with a login, for the configuration at a path.
pub fn plan(
    path: &str,
    accounts: &Vec<Account>,
    requested: Option<&str>,
    tokens: &StoredTokens,
) -> (result: Result<Plan, LoginError>)
    ensures
        match result {
            Ok(found) => planned(
                path@,
                crate::config::account_views(accounts@),
                crate::json::read(requested),
                tokens@,
            ) == Ok::<PlanView, LoginError>(found@),
            Err(error) => planned(
                path@,
                crate::config::account_views(accounts@),
                crate::json::read(requested),
                tokens@,
            ) == Err::<PlanView, LoginError>(error),
        },
{
    let ghost all = crate::config::account_views(accounts@);
    let known = find_identity(accounts, tokens);
    let name: String = match known {
        Some(i) => {
            assert(all[i as int] == accounts@[i as int]@);
            if let Some(wanted) = requested {
                if !same(wanted, accounts[i].name.as_str()) {
                    return Err(LoginError::OtherName);
                }
            }
            accounts[i].name.clone()
        },
        None => match requested {
            Some(wanted) => owned(wanted),
            None => generate_name(tokens),
        },
    };
    if validate_name(name.as_str()).is_err() {
        return Err(LoginError::Name);
    }
    match find_name(accounts, name.as_str()) {
        Some(i) => {
            assert(all[i as int] == accounts@[i as int]@);
            if !is_identity(&accounts[i], tokens) {
                return Err(LoginError::OtherIdentity);
            }
            match &accounts[i].credential {
                Credential::Managed { path: token_path } => Ok(
                    Plan { name, token_path: token_path.clone(), registered: true },
                ),
                _ => Err(LoginError::External),
            }
        },
        None => {
            let state = replace_extension(path, "state");
            let directory = join(state.as_str(), "accounts");
            let file = concat(name.as_str(), ".json");
            let token_path = join(directory.as_str(), file.as_str());
            Ok(Plan { name, token_path, registered: false })
        },
    }
}

/// Checks the file of tokens that a login replaces. `previous` is `None` where the file cannot be
/// read as tokens: a login repairs it only where the configuration has the account.
pub fn check_previous(
    plan: &Plan,
    previous: Option<&StoredTokens>,
    tokens: &StoredTokens,
) -> (result: Result<(), LoginError>)
    ensures
        result == match previous {
            Some(stored) => if stored@.account_id == tokens@.account_id && stored@.user_id
                == tokens@.user_id {
                Ok::<(), LoginError>(())
            } else {
                Err(LoginError::StoredIdentity)
            },
            None => if plan@.registered {
                Ok(())
            } else {
                Err(LoginError::Unregistered)
            },
        },
{
    match previous {
        Some(stored) => if same(stored.account_id.as_str(), tokens.account_id.as_str()) && same(
            stored.user_id.as_str(),
            tokens.user_id.as_str(),
        ) {
            Ok(())
        } else {
            Err(LoginError::StoredIdentity)
        },
        None => if plan.registered {
            Ok(())
        } else {
            Err(LoginError::Unregistered)
        },
    }
}

/// Adds the account of a login to the configuration at a path.
pub fn register(config: &mut Config, path: &str, plan: &Plan, tokens: &StoredTokens)
    requires
        old(config).wf(),
    ensures
        final(config).wf(),
        final(config)@ == registered(old(config)@, path@, plan@, tokens@),
{
    if !plan.registered {
        let account = Account {
            name: plan.name.clone(),
            kind: Kind::Chatgpt,
            base_url: None,
            usage_url: None,
            account_id: Some(tokens.account_id.clone()),
            user_id: Some(tokens.user_id.clone()),
            credential: Credential::Managed { path: plan.token_path.clone() },
            priority: 0,
            disabled: false,
            groups: Vec::new(),
            models: Vec::new(),
            threshold_percent: None,
            auto_reset: false,
        };
        proof {
            assert(account@.groups =~= Seq::<Seq<char>>::empty());
            assert(account@.models =~= Seq::<Seq<char>>::empty());
            assert(account@ == added(plan@, tokens@));
        }
        config.accounts.push(account);
        assert(config@.accounts =~= old(config)@.accounts.push(account@));
    }
    if config.client_token_file.is_none() {
        config.client_token_file = Some(token_file(path));
    }
    assert(config@ =~= registered(old(config)@, path@, plan@, tokens@));
}

/// A line of the list of accounts.
pub struct Row {
    pub name: String,
    pub kind: Kind,
    pub disabled: bool,
    pub account_id: Option<String>,
    /// When the token expires, where it is managed and can be read.
    pub expires_at: Option<u64>,
    /// Whether a login is required, where the token is managed.
    pub login_required: Option<bool>,
}

/// The line of an account. `stored` holds its tokens, where they can be read.
pub fn row(account: &Account, stored: Option<&StoredTokens>) -> (line: Row)
    ensures
        line.name@ == account@.name,
        line.kind == account@.kind,
        line.disabled == account@.disabled,
        crate::text::option_view(line.account_id) == account@.account_id,
        match account@.credential {
            CredentialView::Managed { .. } => match stored {
                Some(tokens) => line.expires_at == Some(tokens@.expires_at) && line.login_required
                    == Some(tokens@.login_required),
                None => line.expires_at is None && line.login_required == Some(true),
            },
            _ => line.expires_at is None && line.login_required is None,
        },
{
    let (expires_at, login_required): (Option<u64>, Option<bool>) = match &account.credential {
        Credential::Managed { .. } => match stored {
            Some(tokens) => (Some(tokens.expires_at), Some(tokens.login_required)),
            None => (None, Some(true)),
        },
        _ => (None, None),
    };
    Row {
        name: account.name.clone(),
        kind: account.kind,
        disabled: account.disabled,
        account_id: crate::text::copy_option(&account.account_id),
        expires_at,
        login_required,
    }
}

/// What a server that was asked to read its configuration again answered.
#[derive(Debug)]
pub enum Notice {
    /// The configuration was read; a restart may be needed for some of it.
    Loaded { restart_required: bool },
    /// No server listens.
    Absent,
    /// The configuration was not read, for this reason.
    Refused(String),
}

/// Reads what a server answered: whether with success, and the JSON value.
pub fn read_notice(success: bool, value: &Json) -> (notice: Notice)
    ensures
        match notice {
            Notice::Loaded { restart_required } => success && restart_required == (
            value@.member_boolean("restart_required"@) == Some(true)),
            Notice::Absent => false,
            Notice::Refused(reason) => !success && reason@ == match value@.inner(
                "error"@,
                "message"@,
            ) {
                Some(inner) => match inner.text() {
                    Some(text) => text,
                    None => "reload rejected"@,
                },
                None => "reload rejected"@,
            },
        },
{
    if success {
        return Notice::Loaded { restart_required: value.bool_at("restart_required") == Some(true) };
    }
    let reason = match value.pointer("error", "message") {
        Some(inner) => match inner.as_str() {
            Some(text) => owned(text),
            None => owned("reload rejected"),
        },
        None => owned("reload rejected"),
    };
    Notice::Refused(reason)
}

/// What is told after a login.
pub open spec fn notice_text(name: Seq<char>, notice: Notice) -> Seq<char> {
    "Account "@ + name + match notice {
        Notice::Loaded { restart_required } => " saved and loaded into the running pool."@ + if
        restart_required {
            "\nSettings other than accounts changed; restart the server to apply them."@
        } else {
            ""@
        },
        Notice::Absent => " saved. Run tcx server to start the pool."@,
        Notice::Refused(reason) => " saved. The running server did not load it: "@ + reason@
            + "\nRun tcx reload, or restart the server."@,
    }
}

/// What is told after a login.
pub fn notice_message(name: &str, notice: &Notice) -> (text: String)
    ensures
        text@ == notice_text(name@, *notice),
{
    let rest = match notice {
        Notice::Loaded { restart_required } => concat(
            " saved and loaded into the running pool.",
            if *restart_required {
                "\nSettings other than accounts changed; restart the server to apply them."
            } else {
                ""
            },
        ),
        Notice::Absent => owned(" saved. Run tcx server to start the pool."),
        Notice::Refused(reason) => concat3(
            " saved. The running server did not load it: ",
            reason.as_str(),
            "\nRun tcx reload, or restart the server.",
        ),
    };
    concat3("Account ", name, rest.as_str())
}

proof fn lemma_identity_at(accounts: Seq<AccountView>, tokens: StoredView)
    ensures
        identity_at(accounts, tokens) matches Some(i) ==> 0 <= i < accounts.len() && has_identity(
            accounts[i],
            tokens,
        ),
    decreases accounts.len(),
{
    if accounts.len() > 0 {
        lemma_identity_at(accounts.drop_last(), tokens);
    }
}

proof fn lemma_name_at(accounts: Seq<AccountView>, name: Seq<char>)
    ensures
        match name_at(accounts, name) {
            Some(i) => 0 <= i < accounts.len() && accounts[i].name == name,
            None => !crate::config::named(accounts, name),
        },
    decreases accounts.len(),
{
    if accounts.len() > 0 {
        lemma_name_at(accounts.drop_last(), name);
        let rest = accounts.drop_last();
        if name_at(accounts, name) is None && crate::config::named(accounts, name) {
            let i = choose|i: int|
                0 <= i < accounts.len() && (#[trigger] accounts[i]).name == name;
            if i < rest.len() {
                assert(rest[i].name == name);
            }
        }
    }
}

/// A login keeps every account of the configuration, with its settings, and adds at most one, whose
/// name no other has.
pub proof fn login_keeps_the_accounts(
    config: ConfigView,
    path: Seq<char>,
    requested: Option<Seq<char>>,
    tokens: StoredView,
    i: int,
)
    requires
        planned(path, config.accounts, requested, tokens) is Ok,
        0 <= i < config.accounts.len(),
    ensures
        ({
            let plan = planned(path, config.accounts, requested, tokens)->Ok_0;
            let after = registered(config, path, plan, tokens).accounts;
            &&& after[i] == config.accounts[i]
            &&& config.accounts.len() <= after.len() <= config.accounts.len() + 1
            &&& after.len() > config.accounts.len() ==> !crate::config::named(
                config.accounts,
                after.last().name,
            )
        }),
{
    let plan = planned(path, config.accounts, requested, tokens)->Ok_0;
    lemma_name_at(config.accounts, plan.name);
}

/// A login of a known account adds none.
pub proof fn known_account_is_not_added_again(
    config: ConfigView,
    path: Seq<char>,
    requested: Option<Seq<char>>,
    tokens: StoredView,
)
    requires
        planned(path, config.accounts, requested, tokens) is Ok,
        identity_at(config.accounts, tokens) is Some,
    ensures
        ({
            let plan = planned(path, config.accounts, requested, tokens)->Ok_0;
            registered(config, path, plan, tokens).accounts == config.accounts
        }),
{
    let plan = planned(path, config.accounts, requested, tokens)->Ok_0;
    lemma_identity_at(config.accounts, tokens);
    lemma_name_at(config.accounts, plan.name);
    let i = identity_at(config.accounts, tokens)->Some_0;
    assert(config.accounts[i].name == plan.name);
}

/// Another member of a workspace never takes over the name of an account.
pub proof fn members_keep_separate_accounts(
    path: Seq<char>,
    accounts: Seq<AccountView>,
    name: Seq<char>,
    tokens: StoredView,
)
    requires
        crate::config::named(accounts, name),
        forall|i: int|
            0 <= i < accounts.len() && (#[trigger] accounts[i]).name == name ==> !has_identity(
                accounts[i],
                tokens,
            ),
    ensures
        planned(path, accounts, Some(name), tokens) is Err,
{
    lemma_name_at(accounts, name);
    lemma_identity_at(accounts, tokens);
}

/// The same login again gives the same name and changes nothing more.
pub proof fn login_again_changes_nothing(
    config: ConfigView,
    path: Seq<char>,
    requested: Option<Seq<char>>,
    tokens: StoredView,
)
    requires
        planned(path, config.accounts, requested, tokens) is Ok,
    ensures
        ({
            let plan = planned(path, config.accounts, requested, tokens)->Ok_0;
            let after = registered(config, path, plan, tokens);
            let again = planned(path, after.accounts, requested, tokens);
            &&& again == Ok::<PlanView, LoginError>(PlanView { registered: true, ..plan })
            &&& registered(after, path, again->Ok_0, tokens) == after
        }),
{
    let plan = planned(path, config.accounts, requested, tokens)->Ok_0;
    let after = registered(config, path, plan, tokens);
    lemma_identity_at(config.accounts, tokens);
    lemma_name_at(config.accounts, plan.name);
    if !plan.registered {
        assert(after.accounts.drop_last() =~= config.accounts);
        assert(after.accounts.last() == added(plan, tokens));
    }
    assert(registered(after, path, PlanView { registered: true, ..plan }, tokens) =~= after);
}

/// The name of a new account is made of up to 48 characters of its address, with underscores for
/// those that a name cannot have, a hyphen, and eight letters of the digest of its user and account.
pub proof fn generated_names_tell_the_account(tokens: StoredView, i: int)
    ensures
        ({
            let name = generated_name(tokens);
            let source = if tokens.email is Some {
                tokens.email->Some_0
            } else {
                "account"@
            };
            let length = if source.len() < 48 {
                source.len() as int
            } else {
                48
            };
            let digest = crate::identity::text_digest(tokens.user_id + ":"@ + tokens.account_id);
            &&& name.len() == length + 1 + digest.take(8).len()
            &&& name[length] == '-'
            &&& name.skip(length + 1) == digest.take(8)
            &&& 0 <= i < length && crate::config::is_name_char(source[i]) ==> name[i] == source[i]
            &&& 0 <= i < length && !crate::config::is_name_char(source[i]) ==> name[i] == '_'
        }),
{
    reveal_strlit("-");
    let name = generated_name(tokens);
    let source = if tokens.email is Some {
        tokens.email->Some_0
    } else {
        "account"@
    };
    let length = if source.len() < 48 {
        source.len() as int
    } else {
        48
    };
    let digest = crate::identity::text_digest(tokens.user_id + ":"@ + tokens.account_id);
    assert(name_prefix(tokens.email).len() == length);
    assert(name.skip(length + 1) =~= digest.take(8));
}

/// Whether an account is the first that has an identity.
pub open spec fn first_with_identity(
    accounts: Seq<AccountView>,
    tokens: StoredView,
    i: int,
) -> bool {
    &&& 0 <= i < accounts.len()
    &&& accounts[i].account_id == Some(tokens.account_id)
    &&& accounts[i].user_id == Some(tokens.user_id)
    &&& forall|j: int|
        0 <= j < i ==> (#[trigger] accounts[j]).account_id != Some(tokens.account_id)
            || accounts[j].user_id != Some(tokens.user_id)
}

proof fn lemma_first_identity(accounts: Seq<AccountView>, tokens: StoredView, i: int)
    ensures
        identity_at(accounts, tokens) == Some(i) <==> first_with_identity(accounts, tokens, i),
        identity_at(accounts, tokens) is None <==> forall|j: int|
            0 <= j < accounts.len() ==> !has_identity(#[trigger] accounts[j], tokens),
    decreases accounts.len(),
{
    if accounts.len() > 0 {
        let rest = accounts.drop_last();
        let last = accounts.len() - 1;
        lemma_first_identity(rest, tokens, i);
        assert forall|j: int| 0 <= j < last implies #[trigger] accounts[j] == rest[j] by {}
        match identity_at(rest, tokens) {
            Some(k) => {
                lemma_first_identity(rest, tokens, k);
                assert(has_identity(accounts[k], tokens));
                if first_with_identity(accounts, tokens, i) {
                    if i == last {
                        assert(accounts[k].account_id != Some(tokens.account_id)
                            || accounts[k].user_id != Some(tokens.user_id));
                    } else {
                        assert(first_with_identity(rest, tokens, i));
                    }
                }
            },
            None => {
                assert forall|j: int| 0 <= j < last implies !has_identity(
                    #[trigger] accounts[j],
                    tokens,
                ) by {
                    assert(!has_identity(rest[j], tokens));
                }
                assert(accounts[last] == accounts.last());
            },
        }
    }
}

/// A login of a known account keeps its name, whatever else is asked for being refused; one of a new
/// account takes the name that is asked for, or else a generated one.
pub proof fn logins_are_named(
    accounts: Seq<AccountView>,
    requested: Option<Seq<char>>,
    tokens: StoredView,
    i: int,
)
    ensures
        first_with_identity(accounts, tokens, i) && (requested is None || requested == Some(
            accounts[i].name,
        )) ==> chosen_name(accounts, requested, tokens) == Ok::<Seq<char>, LoginError>(
            accounts[i].name,
        ),
        first_with_identity(accounts, tokens, i) && requested is Some && requested != Some(
            accounts[i].name,
        ) ==> chosen_name(accounts, requested, tokens) == Err::<Seq<char>, LoginError>(
            LoginError::OtherName,
        ),
        (forall|j: int|
            0 <= j < accounts.len() ==> (#[trigger] accounts[j]).account_id != Some(
                tokens.account_id,
            ) || accounts[j].user_id != Some(tokens.user_id)) ==> chosen_name(
            accounts,
            requested,
            tokens,
        ) == Ok::<Seq<char>, LoginError>(
            if requested is Some {
                requested->Some_0
            } else {
                generated_name(tokens)
            },
        ),
{
    lemma_first_identity(accounts, tokens, i);
    if forall|j: int|
        0 <= j < accounts.len() ==> (#[trigger] accounts[j]).account_id != Some(tokens.account_id)
            || accounts[j].user_id != Some(tokens.user_id) {
        assert forall|j: int| 0 <= j < accounts.len() implies !has_identity(
            #[trigger] accounts[j],
            tokens,
        ) by {
            assert(accounts[j].account_id != Some(tokens.account_id) || accounts[j].user_id != Some(
                tokens.user_id,
            ));
        }
    }
}

/// A new account is one of ChatGPT, on, of no group and open to all models; it has the identity of
/// its tokens and the path where they are stored.
pub proof fn new_logins_are_registered(
    config: ConfigView,
    path: Seq<char>,
    plan: PlanView,
    tokens: StoredView,
)
    requires
        !plan.registered,
    ensures
        ({
            let after = registered(config, path, plan, tokens);
            let account = after.accounts.last();
            &&& after.accounts.len() == config.accounts.len() + 1
            &&& account.name == plan.name
            &&& account.kind == Kind::Chatgpt
            &&& account.account_id == Some(tokens.account_id)
            &&& account.user_id == Some(tokens.user_id)
            &&& account.credential == (CredentialView::Managed { path: plan.token_path })
            &&& !account.disabled && !account.auto_reset && account.priority == 0
            &&& account.groups.len() == 0 && account.models.len() == 0
            &&& account.base_url is None && account.usage_url is None
            &&& account.threshold_percent is None
            &&& config.settings.client_token_file is Some ==> after.settings == config.settings
            &&& config.settings.client_token_file is None ==> after.settings.client_token_file
                == Some(
                crate::paths::joined(
                    crate::paths::with_extension(path, "state"@),
                    "proxy.token"@,
                ),
            )
        }),
{
}

/// The tokens of a new account are stored beside the configuration: in the directory named like it
/// with the extension `state`, under `accounts`, in a file named like the account.
pub proof fn tokens_are_stored_beside_the_configuration(
    front: Seq<char>,
    stem: Seq<char>,
    extension: Seq<char>,
    name: Seq<char>,
)
    requires
        front.len() == 0 || front.last() == '/',
        stem.len() > 0,
        !stem.contains('/'),
        !stem.contains('.'),
        !extension.contains('/'),
        !extension.contains('.'),
        crate::config::valid_name(name),
    ensures
        new_token_path(front + stem + (seq!['.'] + extension), name) == front + stem
            + ".state/accounts/"@ + name + ".json"@,
{
    reveal_strlit("state");
    reveal_strlit("accounts");
    reveal_strlit(".json");
    reveal_strlit("/");
    reveal_strlit(".state/accounts/");
    crate::paths::extensions_are_replaced(front, stem, extension, "state"@);
    let state = front + stem + seq!['.'] + "state"@;
    assert(state.last() == 'e');
    let accounts = state + "/"@ + "accounts"@;
    assert(crate::paths::joined(state, "accounts"@) == accounts);
    assert(accounts.last() == 's');
    let file = name + ".json"@;
    assert(crate::config::is_name_char(name[0]));
    assert(file[0] == name[0]);
    assert(crate::paths::joined(accounts, file) == accounts + "/"@ + file);
    assert(accounts + "/"@ + file =~= front + stem + ".state/accounts/"@ + name + ".json"@);
}

/// What is said of a login that cannot be stored.
pub proof fn name_errors_are_worded()
    ensures
        error_text(LoginError::OtherName) == "this account is already stored under another name"@,
        error_text(LoginError::OtherIdentity)
            == "account name belongs to another identity; use another --name"@,
        error_text(LoginError::External)
            == "account uses external credentials; use another --name"@,
        error_text(LoginError::StoredIdentity)
            == "stored account identity differs; use another --name"@,
        error_text(LoginError::Unregistered)
            == "unregistered credential file exists; use another --name"@,
{
}

/// What a login says when the account is stored.
pub proof fn logins_are_told(name: Seq<char>, reason: String)
    ensures
        notice_text(name, Notice::Loaded { restart_required: true }) == "Account "@ + name + (
        " saved and loaded into the running pool."@
            + "\nSettings other than accounts changed; restart the server to apply them."@),
        notice_text(name, Notice::Loaded { restart_required: false }) == "Account "@ + name
            + " saved and loaded into the running pool."@,
        notice_text(name, Notice::Absent) == "Account "@ + name
            + " saved. Run tcx server to start the pool."@,
        notice_text(name, Notice::Refused(reason)) == "Account "@ + name + (
        " saved. The running server did not load it: "@ + reason@
            + "\nRun tcx reload, or restart the server."@),
{
    reveal_strlit("");
    let text = " saved and loaded into the running pool."@;
    assert(text + ""@ =~= text);
}

} // verus!
