//! Running Codex through the proxy.
use crate::config::Account;
use crate::config::AccountView;
use crate::config::Config;
use crate::config::SettingsView;
use crate::json::quoted;
use crate::json::Json;
use crate::json::JsonView;
use crate::text::any_same;
use crate::text::concat;
use crate::text::concat3;
use crate::text::join;
use crate::text::owned;
use crate::text::same;
use vstd::prelude::*;

verus! {

/// Why Codex is not run.
#[derive(Clone, Copy, Debug, PartialEq, Eq, Structural)]
pub enum LaunchError {
    Group,
    Unknown,
    GroupWithoutProxy,
    Unhealthy,
    Service,
}

/// What is told of an error.
pub open spec fn error_text(error: LaunchError) -> Seq<char> {
    match error {
        LaunchError::Group => "unknown account group"@,
        LaunchError::Unknown => "cannot determine proxy status; check tcx server"@,
        LaunchError::GroupWithoutProxy => "the requested account group requires a running proxy"@,
        LaunchError::Unhealthy =>
            "proxy health check failed; refusing direct fallback while the port is in use"@,
        LaunchError::Service => "unexpected service on the proxy port"@,
    }
}

impl LaunchError {
    /// What is told of the error.
    pub fn message(self) -> (text: &'static str)
        ensures
            text@ == error_text(self),
    {
        match self {
            LaunchError::Group => "unknown account group",
            LaunchError::Unknown => "cannot determine proxy status; check tcx server",
            LaunchError::GroupWithoutProxy =>
                "the requested account group requires a running proxy",
            LaunchError::Unhealthy =>
                "proxy health check failed; refusing direct fallback while the port is in use",
            LaunchError::Service => "unexpected service on the proxy port",
        }
    }
}

/// Some account is in a group.
pub open spec fn has_group(accounts: Seq<AccountView>, group: Seq<char>) -> bool {
    exists|i: int| 0 <= i < accounts.len() && (#[trigger] accounts[i]).groups.contains(group)
}

fn is_group(accounts: &Vec<Account>, group: &str) -> (yes: bool)
    ensures
        yes == has_group(crate::config::account_views(accounts@), group@),
{
    let ghost all = crate::config::account_views(accounts@);
    let mut i: usize = 0;
    while i < accounts.len()
        invariant
            i <= accounts@.len(),
            all == crate::config::account_views(accounts@),
            forall|k: int| 0 <= k < i ==> !(#[trigger] all[k]).groups.contains(group@),
        decreases accounts@.len() - i,
    {
        assert(all[i as int] == accounts@[i as int]@);
        if any_same(&accounts[i].groups, group) {
            assert(all[i as int].groups.contains(group@));
            return true;
        }
        i = i + 1;
    }
    false
}

/// What came of an attempt to connect to the proxy.
#[derive(Clone, Copy, Debug, PartialEq, Eq, Structural)]
pub enum Probe {
    Connected,
    /// Nothing listens.
    Refused,
    Unclear,
}

/// How Codex is run.
#[derive(Clone, Copy, Debug, PartialEq, Eq, Structural)]
pub enum Launch {
    Proxied,
    Direct,
}

/// Checks that a group that is asked for is one of the configuration.
pub fn check_group(config: &Config, group: Option<&str>) -> (result: Result<(), LaunchError>)
    ensures
        result == match group {
            Some(name) => if has_group(config@.accounts, name@) {
                Ok::<(), LaunchError>(())
            } else {
                Err(LaunchError::Group)
            },
            None => Ok(()),
        },
{
    match group {
        Some(name) => if is_group(&config.accounts, name) {
            Ok(())
        } else {
            Err(LaunchError::Group)
        },
        None => Ok(()),
    }
}

/// How Codex is run: through the proxy where it listens, and directly only where nothing does and no
/// group is asked for.
pub fn launch(probe: Probe, group: bool) -> (result: Result<Launch, LaunchError>)
    ensures
        result == match probe {
            Probe::Connected => Ok::<Launch, LaunchError>(Launch::Proxied),
            Probe::Refused => if group {
                Err(LaunchError::GroupWithoutProxy)
            } else {
                Ok(Launch::Direct)
            },
            Probe::Unclear => Err(LaunchError::Unknown),
        },
{
    match probe {
        Probe::Connected => Ok(Launch::Proxied),
        Probe::Refused => if group {
            Err(LaunchError::GroupWithoutProxy)
        } else {
            Ok(Launch::Direct)
        },
        Probe::Unclear => Err(LaunchError::Unknown),
    }
}

/// The JSON value is what the health route serves.
pub open spec fn is_healthy(value: JsonView) -> bool {
    value.member_text("status"@) == Some("ok"@) && value.member("version"@) is Some
}

/// Checks what the health route answered: whether with success, and the JSON value.
pub fn check_health(success: bool, value: &Json) -> (result: Result<(), LaunchError>)
    ensures
        result == if !success {
            Err::<(), LaunchError>(LaunchError::Unhealthy)
        } else if is_healthy(value@) {
            Ok(())
        } else {
            Err(LaunchError::Service)
        },
{
    if !success {
        return Err(LaunchError::Unhealthy);
    }
    let ok = match value.text_at("status") {
        Some(text) => same(text, "ok"),
        None => false,
    };
    if ok && value.get("version").is_some() {
        Ok(())
    } else {
        Err(LaunchError::Service)
    }
}

/// The settings that make Codex use the proxy.
pub open spec fn settings_of(settings: SettingsView) -> Seq<Seq<char>> {
    seq![
        "model_provider=\"teamcodex\""@,
        "model_providers.teamcodex.name=\"TeamCodex\""@,
        "model_providers.teamcodex.base_url=\"http://"@ + settings.listen + "/v1\""@,
        "model_providers.teamcodex.env_key="@ + crate::json::json_string(settings.client_token_env),
        "model_providers.teamcodex.wire_api=\"responses\""@,
        "model_providers.teamcodex.requires_openai_auth=false"@,
        "model_providers.teamcodex.supports_websockets=false"@,
    ]
}

/// The settings that make Codex use the proxy.
pub fn provider_settings(config: &Config) -> (settings: Vec<String>)
    ensures
        crate::text::views(settings@) == settings_of(config@.settings),
{
    let mut settings: Vec<String> = Vec::new();
    settings.push(owned("model_provider=\"teamcodex\""));
    settings.push(owned("model_providers.teamcodex.name=\"TeamCodex\""));
    settings.push(
        concat3(
            "model_providers.teamcodex.base_url=\"http://",
            config.listen.text.as_str(),
            "/v1\"",
        ),
    );
    settings.push(
        concat(
            "model_providers.teamcodex.env_key=",
            quoted(config.client_token_env.as_str()).as_str(),
        ),
    );
    settings.push(owned("model_providers.teamcodex.wire_api=\"responses\""));
    settings.push(owned("model_providers.teamcodex.requires_openai_auth=false"));
    settings.push(owned("model_providers.teamcodex.supports_websockets=false"));
    assert(crate::text::views(settings@) =~= settings_of(config@.settings));
    settings
}

/// The settings as lines of a file.
pub fn provider_config(config: &Config) -> (text: String)
    ensures
        text@ == crate::text::joined(settings_of(config@.settings), "\n"@) + "\n"@,
{
    let lines = join(&provider_settings(config), "\n");
    concat(lines.as_str(), "\n")
}

/// The flag that lets Codex run without asking.
pub open spec fn is_yolo(argument: Seq<char>) -> bool {
    argument == "--yolo"@ || argument == "--dangerously-bypass-approvals-and-sandbox"@
}

/// How many such flags stand at the start.
pub open spec fn yolo_count(arguments: Seq<Seq<char>>) -> nat
    decreases arguments.len(),
{
    if arguments.len() > 0 && is_yolo(arguments[0]) {
        1 + yolo_count(arguments.drop_first())
    } else {
        0
    }
}

/// The argument that follows the flags is the one that runs a single task.
pub open spec fn is_exec(arguments: Seq<Seq<char>>) -> bool {
    let count = yolo_count(arguments) as int;
    count < arguments.len() && (arguments[count] == "exec"@ || arguments[count] == "e"@)
}

/// Settings as arguments.
pub open spec fn as_arguments(settings: Seq<Seq<char>>) -> Seq<Seq<char>>
    decreases settings.len(),
{
    if settings.len() == 0 {
        Seq::empty()
    } else {
        as_arguments(settings.drop_last()).push("-c"@).push(settings.last())
    }
}

/// The settings for a group.
pub open spec fn group_settings(settings: SettingsView, group: Option<Seq<char>>) -> Seq<Seq<char>> {
    match group {
        Some(name) => settings_of(settings).push(
            "model_providers.teamcodex.http_headers.x-tcx-group="@ + crate::json::json_string(name),
        ),
        None => settings_of(settings),
    }
}

/// The arguments with which Codex uses the proxy. A single task has arguments of its own: the
/// settings and the flags follow the argument that names it.
pub open spec fn proxied(
    settings: SettingsView,
    group: Option<Seq<char>>,
    arguments: Seq<Seq<char>>,
) -> Seq<Seq<char>> {
    let extra = as_arguments(group_settings(settings, group));
    if is_exec(arguments) {
        seq!["exec"@] + extra + arguments.remove(yolo_count(arguments) as int)
    } else {
        extra + arguments
    }
}

proof fn lemma_yolo(arguments: Seq<Seq<char>>, n: int)
    requires
        0 <= n <= arguments.len(),
        forall|i: int| 0 <= i < n ==> is_yolo(#[trigger] arguments[i]),
        n < arguments.len() ==> !is_yolo(arguments[n]),
    ensures
        yolo_count(arguments) == n,
    decreases n,
{
    if n > 0 {
        assert(is_yolo(arguments[0]));
        let rest = arguments.drop_first();
        assert forall|i: int| 0 <= i < n - 1 implies is_yolo(#[trigger] rest[i]) by {
            assert(rest[i] == arguments[i + 1]);
        }
        lemma_yolo(rest, n - 1);
    }
}

fn yolo(argument: &str) -> (yes: bool)
    ensures
        yes == is_yolo(argument@),
{
    same(argument, "--yolo") || same(argument, "--dangerously-bypass-approvals-and-sandbox")
}

fn leading(arguments: &Vec<String>) -> (count: usize)
    ensures
        count == yolo_count(crate::text::views(arguments@)),
        count <= arguments@.len(),
{
    let ghost all = crate::text::views(arguments@);
    let mut count: usize = 0;
    while count < arguments.len() && yolo(arguments[count].as_str())
        invariant
            count <= arguments@.len(),
            all == crate::text::views(arguments@),
            forall|i: int| 0 <= i < count ==> is_yolo(#[trigger] all[i]),
        decreases arguments@.len() - count,
    {
        assert(all[count as int] == arguments@[count as int]@);
        count = count + 1;
    }
    proof {
        if count < arguments@.len() {
            assert(all[count as int] == arguments@[count as int]@);
        }
        lemma_yolo(all, count as int);
    }
    count
}

fn append(list: &mut Vec<String>, more: &Vec<String>)
    ensures
        crate::text::views(final(list)@) == crate::text::views(old(list)@) + crate::text::views(
            more@,
        ),
{
    let ghost before = crate::text::views(list@);
    let ghost all = crate::text::views(more@);
    let mut i: usize = 0;
    assert(before + all.take(0) =~= before);
    while i < more.len()
        invariant
            i <= more@.len(),
            all == crate::text::views(more@),
            crate::text::views(list@) == before + all.take(i as int),
        decreases more@.len() - i,
    {
        let ghost so_far = crate::text::views(list@);
        list.push(more[i].clone());
        i = i + 1;
        assert(crate::text::views(list@) =~= so_far.push(all[i - 1]));
        assert(all.take(i as int) =~= all.take(i - 1).push(all[i - 1]));
        assert(crate::text::views(list@) =~= before + all.take(i as int));
    }
    assert(all.take(more@.len() as int) =~= all);
}

fn settings_arguments(settings: &Vec<String>) -> (arguments: Vec<String>)
    ensures
        crate::text::views(arguments@) == as_arguments(crate::text::views(settings@)),
{
    let ghost all = crate::text::views(settings@);
    let mut arguments: Vec<String> = Vec::new();
    let mut i: usize = 0;
    assert(crate::text::views(arguments@) =~= as_arguments(all.take(0)));
    while i < settings.len()
        invariant
            i <= settings@.len(),
            all == crate::text::views(settings@),
            crate::text::views(arguments@) == as_arguments(all.take(i as int)),
        decreases settings@.len() - i,
    {
        let ghost before = crate::text::views(arguments@);
        assert(all.take(i + 1).drop_last() =~= all.take(i as int));
        assert(all.take(i + 1).last() == settings@[i as int]@);
        arguments.push(owned("-c"));
        arguments.push(settings[i].clone());
        assert(crate::text::views(arguments@) =~= before.push("-c"@).push(settings@[i as int]@));
        i = i + 1;
    }
    assert(all.take(settings@.len() as int) =~= all);
    arguments
}

/// The arguments with which Codex uses the proxy.
pub fn proxied_args(config: &Config, group: Option<&str>, arguments: Vec<String>) -> (output: Vec<
    String,
>)
    ensures
        crate::text::views(output@) == proxied(
            config@.settings,
            crate::json::read(group),
            crate::text::views(arguments@),
        ),
{
    let ghost all = crate::text::views(arguments@);
    let mut settings = provider_settings(config);
    if let Some(name) = group {
        let ghost before = crate::text::views(settings@);
        let setting = concat(
            "model_providers.teamcodex.http_headers.x-tcx-group=",
            quoted(name).as_str(),
        );
        settings.push(setting);
        assert(crate::text::views(settings@) =~= before.push(setting@));
    }
    let extra = settings_arguments(&settings);
    let count: usize = leading(&arguments);
    proof {
        if count < arguments@.len() {
            assert(all[count as int] == arguments@[count as int]@);
        }
    }
    let exec = count < arguments.len() && (same(arguments[count].as_str(), "exec") || same(
        arguments[count].as_str(),
        "e",
    ));
    let mut output: Vec<String> = Vec::new();
    let mut rest = arguments;
    if exec {
        output.push(owned("exec"));
        rest.remove(count);
        assert(crate::text::views(rest@) =~= all.remove(count as int));
        assert(crate::text::views(output@) =~= seq!["exec"@]);
    }
    append(&mut output, &extra);
    append(&mut output, &rest);
    proof {
        if !exec {
            assert(Seq::<Seq<char>>::empty() + crate::text::views(extra@) =~= crate::text::views(
                extra@,
            ));
        }
        assert(crate::text::views(output@) =~= proxied(
            config@.settings,
            crate::json::read(group),
            all,
        ));
    }
    output
}

/// No argument is lost: the settings are added, and the argument that runs a single task comes first.
pub proof fn arguments_are_kept(
    settings: SettingsView,
    group: Option<Seq<char>>,
    arguments: Seq<Seq<char>>,
)
    ensures
        is_exec(arguments) ==> proxied(settings, group, arguments)[0] == "exec"@,
        proxied(settings, group, arguments).len() == as_arguments(
            group_settings(settings, group),
        ).len() + arguments.len(),
{
}

proof fn lemma_as_arguments(settings: Seq<Seq<char>>, k: int)
    requires
        0 <= k < settings.len(),
    ensures
        as_arguments(settings).len() == 2 * settings.len(),
        as_arguments(settings)[2 * k] == "-c"@,
        as_arguments(settings)[2 * k + 1] == settings[k],
    decreases settings.len(),
{
    lemma_argument_count(settings);
    lemma_argument_count(settings.drop_last());
    if k < settings.len() - 1 {
        lemma_as_arguments(settings.drop_last(), k);
    }
}

proof fn lemma_argument_count(settings: Seq<Seq<char>>)
    ensures
        as_arguments(settings).len() == 2 * settings.len(),
    decreases settings.len(),
{
    if settings.len() > 0 {
        lemma_argument_count(settings.drop_last());
    }
}

/// Codex is told of the proxy by eight settings at most, each after a `-c`: that it is the provider,
/// what it is called, where it listens, where its token is, that it speaks the responses protocol
/// without a login and without websockets, and which group is asked for.
pub proof fn settings_name_the_proxy(settings: SettingsView, group: Option<Seq<char>>, k: int)
    requires
        0 <= k < group_settings(settings, group).len(),
    ensures
        ({
            let list = group_settings(settings, group);
            let passed = as_arguments(list);
            &&& passed[2 * k] == "-c"@ && passed[2 * k + 1] == list[k]
            &&& passed.len() == 2 * list.len()
            &&& list.len() == if group is Some {
                8int
            } else {
                7
            }
            &&& list.contains("model_provider=\"teamcodex\""@)
            &&& list.contains("model_providers.teamcodex.name=\"TeamCodex\""@)
            &&& list.contains(
                "model_providers.teamcodex.base_url=\"http://"@ + settings.listen + "/v1\""@,
            )
            &&& list.contains(
                "model_providers.teamcodex.env_key="@ + crate::json::json_string(
                    settings.client_token_env,
                ),
            )
            &&& list.contains("model_providers.teamcodex.wire_api=\"responses\""@)
            &&& list.contains("model_providers.teamcodex.requires_openai_auth=false"@)
            &&& list.contains("model_providers.teamcodex.supports_websockets=false"@)
            &&& group is Some ==> list.contains(
                "model_providers.teamcodex.http_headers.x-tcx-group="@ + crate::json::json_string(
                    group->Some_0,
                ),
            )
        }),
{
    let list = group_settings(settings, group);
    lemma_as_arguments(list, k);
    assert(list[0] == "model_provider=\"teamcodex\""@);
    assert(list[1] == "model_providers.teamcodex.name=\"TeamCodex\""@);
    assert(list[2] == "model_providers.teamcodex.base_url=\"http://"@ + settings.listen
        + "/v1\""@);
    assert(list[3] == "model_providers.teamcodex.env_key="@ + crate::json::json_string(
        settings.client_token_env,
    ));
    assert(list[4] == "model_providers.teamcodex.wire_api=\"responses\""@);
    assert(list[5] == "model_providers.teamcodex.requires_openai_auth=false"@);
    assert(list[6] == "model_providers.teamcodex.supports_websockets=false"@);
    if group is Some {
        assert(list[7] == "model_providers.teamcodex.http_headers.x-tcx-group="@
            + crate::json::json_string(group->Some_0));
    }
}

/// The settings stand before the arguments; those of `exec`, or `e` for short, stand behind that
/// word, which comes first. Leading requests for no approvals are looked past. No argument is lost,
/// and their order stays.
pub proof fn settings_stand_before_the_arguments(
    settings: SettingsView,
    group: Option<Seq<char>>,
    yolo: Seq<Seq<char>>,
    arguments: Seq<Seq<char>>,
)
    requires
        forall|i: int|
            0 <= i < yolo.len() ==> (#[trigger] yolo[i] == "--yolo"@ || yolo[i]
                == "--dangerously-bypass-approvals-and-sandbox"@),
        arguments.len() > 0 ==> arguments[0] != "--yolo"@ && arguments[0]
            != "--dangerously-bypass-approvals-and-sandbox"@,
    ensures
        ({
            let extra = as_arguments(group_settings(settings, group));
            let given = yolo + arguments;
            let passed = proxied(settings, group, given);
            let exec = arguments.len() > 0 && (arguments[0] == "exec"@ || arguments[0] == "e"@);
            &&& exec ==> passed == seq!["exec"@] + extra + yolo + arguments.skip(1)
            &&& !exec ==> passed == extra + given
        }),
{
    lemma_yolo_count(yolo, arguments);
    let given = yolo + arguments;
    let count = yolo.len() as int;
    if arguments.len() > 0 {
        assert(given[count] == arguments[0]);
        assert(given.remove(count) =~= yolo + arguments.skip(1));
        let extra = as_arguments(group_settings(settings, group));
        assert(seq!["exec"@] + extra + (yolo + arguments.skip(1)) =~= seq!["exec"@] + extra + yolo
            + arguments.skip(1));
    }
}

proof fn lemma_yolo_count(yolo: Seq<Seq<char>>, arguments: Seq<Seq<char>>)
    requires
        forall|i: int|
            0 <= i < yolo.len() ==> (#[trigger] yolo[i] == "--yolo"@ || yolo[i]
                == "--dangerously-bypass-approvals-and-sandbox"@),
        arguments.len() > 0 ==> arguments[0] != "--yolo"@ && arguments[0]
            != "--dangerously-bypass-approvals-and-sandbox"@,
    ensures
        yolo_count(yolo + arguments) == yolo.len(),
    decreases yolo.len(),
{
    let given = yolo + arguments;
    if yolo.len() > 0 {
        assert(given[0] == yolo[0]);
        let rest = yolo.drop_first();
        assert(given.drop_first() =~= rest + arguments);
        assert forall|i: int| 0 <= i < rest.len() implies (#[trigger] rest[i] == "--yolo"@
            || rest[i] == "--dangerously-bypass-approvals-and-sandbox"@) by {
            assert(rest[i] == yolo[i + 1]);
        }
        lemma_yolo_count(rest, arguments);
    } else {
        assert(given =~= arguments);
    }
}

/// The proxy is healthy where its status is `ok` and it tells its version.
pub proof fn healthy_proxies_say_so(value: JsonView)
    ensures
        is_healthy(value) <==> value.member("version"@) is Some && value.member_text("status"@)
            == Some("ok"@),
{
}

/// What is said where Codex cannot be started.
pub proof fn launch_errors_are_worded()
    ensures
        error_text(LaunchError::Group) == "unknown account group"@,
        error_text(LaunchError::Unknown) == "cannot determine proxy status; check tcx server"@,
        error_text(LaunchError::GroupWithoutProxy)
            == "the requested account group requires a running proxy"@,
        error_text(LaunchError::Unhealthy)
            == "proxy health check failed; refusing direct fallback while the port is in use"@,
        error_text(LaunchError::Service) == "unexpected service on the proxy port"@,
{
}

} // verus!
