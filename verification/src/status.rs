//! The account table of `tcx status`.
//!
//! One line for each account, without colour. The table is made from the JSON value that the status
//! route serves.
use crate::grid::grid;
use crate::json::Json;
use crate::json::JsonView;
use crate::level::Level;
use crate::percent::share_left;
use crate::percent::left_whole;
use crate::percent::whole;
use crate::quota::Quotas;
use crate::quota::Window;
use crate::quota::Windows;
use crate::table::Table;
use crate::text::concat;
use crate::text::concat3;
use crate::text::decimal;
use crate::text::join;
use crate::text::owned;
use crate::text::same;
use crate::text::signed_decimal;
use vstd::prelude::*;
use vstd::string::*;

verus! {

/// Some window is used up to a threshold.
pub open spec fn any_used(quotas: Windows, threshold: Level, now: u64) -> bool {
    exists|id: Seq<char>| #[trigger]
        quotas.contains_key(id) && crate::quota::used(quotas[id], now).rank() >= threshold.rank()
}

/// What is told of the state of an account.
pub open spec fn label(
    disabled: bool,
    hold_until: u64,
    quotas: Windows,
    threshold: Level,
    now: u64,
) -> Seq<char> {
    if disabled {
        "disabled"@
    } else if hold_until > now {
        "waiting"@
    } else if any_used(quotas, threshold, now) {
        "limited"@
    } else {
        "ready"@
    }
}

/// What is told of the state of an account.
pub fn state_label(
    disabled: bool,
    hold_until: u64,
    quotas: &Quotas,
    threshold: Level,
    now: u64,
) -> (text: &'static str)
    requires
        quotas.wf(),
    ensures
        text@ == label(disabled, hold_until, quotas@, threshold, now),
{
    if disabled {
        return "disabled";
    }
    if hold_until > now {
        return "waiting";
    }
    let mut i: usize = 0;
    while i < quotas.len()
        invariant
            !disabled,
            hold_until <= now,
            quotas.wf(),
            i <= quotas.entries().len(),
            forall|k: int|
                0 <= k < i ==> crate::quota::used((#[trigger] quotas.entries()[k]).1, now).rank()
                    < threshold.rank(),
        decreases quotas.entries().len() - i,
    {
        if quotas.value(i).used(now).at_least(threshold) {
            proof {
                quotas.rows_are_the_map();
                assert(quotas@.contains_key(quotas.entries()[i as int].0));
            }
            return "limited";
        }
        i = i + 1;
    }
    proof {
        quotas.rows_are_the_map();
        if any_used(quotas@, threshold, now) {
            let id = choose|id: Seq<char>| #[trigger]
                quotas@.contains_key(id) && crate::quota::used(quotas@[id], now).rank()
                    >= threshold.rank();
            let k = choose|k: int|
                0 <= k < quotas.entries().len() && (#[trigger] quotas.entries()[k]).0 == id;
            assert(quotas@[quotas.entries()[k].0] == quotas.entries()[k].1);
        }
    }
    "ready"
}

/// A number of two digits.
pub open spec fn two_digits(number: nat) -> Seq<char> {
    if number < 10 {
        "0"@ + crate::text::decimal_text(number)
    } else {
        crate::text::decimal_text(number)
    }
}

fn two(number: u64) -> (text: String)
    ensures
        text@ == two_digits(number as nat),
{
    if number < 10 {
        concat("0", decimal(number).as_str())
    } else {
        decimal(number)
    }
}

/// The time from `now` to `at`: `+45s`, `+12m`, `+5h03m` or `+4d22h`.
pub open spec fn countdown_text(at: u64, now: u64) -> Seq<char> {
    let seconds = if at > now {
        (at - now) as nat
    } else {
        0
    };
    let minutes = seconds / 60;
    let hours = minutes / 60;
    if seconds < 60 {
        "+"@ + crate::text::decimal_text(seconds) + "s"@
    } else if minutes < 60 {
        "+"@ + crate::text::decimal_text(minutes) + "m"@
    } else if hours < 24 {
        "+"@ + crate::text::decimal_text(hours) + "h"@ + two_digits(minutes % 60) + "m"@
    } else {
        "+"@ + crate::text::decimal_text(hours / 24) + "d"@ + two_digits(hours % 24) + "h"@
    }
}

/// The time from `now` to `at`.
pub fn countdown(at: u64, now: u64) -> (text: String)
    ensures
        text@ == countdown_text(at, now),
{
    let seconds: u64 = if at > now {
        at - now
    } else {
        0
    };
    let minutes: u64 = seconds / 60;
    let hours: u64 = minutes / 60;
    if seconds < 60 {
        concat3("+", decimal(seconds).as_str(), "s")
    } else if minutes < 60 {
        concat3("+", decimal(minutes).as_str(), "m")
    } else if hours < 24 {
        let start = concat3("+", decimal(hours).as_str(), "h");
        concat3(start.as_str(), two(minutes % 60).as_str(), "m")
    } else {
        let start = concat3("+", decimal(hours / 24).as_str(), "d");
        concat3(start.as_str(), two(hours % 24).as_str(), "h")
    }
}

/// What a window limits. Accounts have a short and a weekly window under the same names, and some
/// have the weekly one alone, so the length tells them apart.
#[derive(Clone, Copy, Debug, PartialEq, Eq, Structural)]
pub enum Kind {
    Short,
    Weekly,
    Other,
}

/// What a window limits.
pub open spec fn kind_of(id: Seq<char>, window: Window) -> Kind {
    if id != "codex-primary"@ && id != "codex-secondary"@ {
        Kind::Other
    } else {
        match window.window_minutes {
            Some(minutes) => if minutes > 1440 {
                Kind::Weekly
            } else if minutes > 0 {
                Kind::Short
            } else {
                Kind::Other
            },
            None => Kind::Other,
        }
    }
}

/// What a window limits.
pub fn kind(id: &str, window: &Window) -> (found: Kind)
    ensures
        found == kind_of(id@, *window),
{
    if !same(id, "codex-primary") && !same(id, "codex-secondary") {
        return Kind::Other;
    }
    match window.window_minutes {
        Some(minutes) => if minutes > 1440 {
            Kind::Weekly
        } else if minutes > 0 {
            Kind::Short
        } else {
            Kind::Other
        },
        None => Kind::Other,
    }
}

/// The window of a kind of which the least is left, the first of several.
pub open spec fn tightest(rows: Seq<(Seq<char>, Window)>, wanted: Kind, now: u64) -> Option<Window>
    decreases rows.len(),
{
    if rows.len() == 0 {
        None
    } else {
        let before = tightest(rows.drop_last(), wanted, now);
        let (id, window) = rows.last();
        if kind_of(id, window) != wanted {
            before
        } else {
            match before {
                Some(best) => if crate::percent::left_units(crate::quota::used(window, now))
                    < crate::percent::left_units(crate::quota::used(best, now)) {
                    Some(window)
                } else {
                    Some(best)
                },
                None => Some(window),
            }
        }
    }
}

/// How much is left of a window, and when it resets.
pub open spec fn window_text(window: Option<Window>, now: u64) -> Seq<char> {
    match window {
        None => "-"@,
        Some(window) => {
            let share = crate::percent::left_text(crate::quota::used(window, now)) + "%"@;
            match window.reset_at {
                Some(at) => if at > now {
                    share + " ("@ + countdown_text(at, now) + ")"@
                } else {
                    share
                },
                None => share,
            }
        },
    }
}

/// How much is left of the windows of a kind: `84% (+6d00h)`, or `-` where there is none.
pub fn remaining(quotas: &Quotas, wanted: Kind, now: u64) -> (text: String)
    requires
        quotas.wf(),
    ensures
        text@ == window_text(tightest(crate::table::rows_of(quotas@), wanted, now), now),
{
    let ghost rows = quotas.entries();
    let mut best: Option<Window> = None;
    let mut i: usize = 0;
    while i < quotas.len()
        invariant
            quotas.wf(),
            rows == quotas.entries(),
            i <= rows.len(),
            best == tightest(rows.take(i as int), wanted, now),
        decreases rows.len() - i,
    {
        assert(rows.take(i + 1).drop_last() =~= rows.take(i as int));
        assert(rows.take(i + 1).last() == rows[i as int]);
        let window: Window = *quotas.value(i);
        if kind(quotas.key(i), &window) == wanted {
            match best {
                Some(found) => {
                    if share_left(window.used(now)) < share_left(found.used(now)) {
                        best = Some(window);
                    }
                },
                None => {
                    best = Some(window);
                },
            }
        }
        i = i + 1;
    }
    proof {
        assert(rows.take(rows.len() as int) =~= rows);
        quotas.rows_are_unique();
    }
    match best {
        None => owned("-"),
        Some(window) => {
            let share = concat(left_whole(window.used(now)).as_str(), "%");
            match window.reset_at {
                Some(at) => if at > now {
                    let start = concat3(share.as_str(), " (", countdown(at, now).as_str());
                    concat(start.as_str(), ")")
                } else {
                    share
                },
                None => share,
            }
        },
    }
}

/// A window and how much of it is used.
pub open spec fn used_text(id: Seq<char>, window: Window, now: u64) -> Seq<char> {
    id + " "@ + crate::percent::whole_text(crate::quota::used(window, now)) + "%"@
}

/// The windows besides the short and the weekly one that are used up to a threshold.
pub open spec fn hits(rows: Seq<(Seq<char>, Window)>, threshold: Level, now: u64) -> Seq<Seq<char>>
    decreases rows.len(),
{
    if rows.len() == 0 {
        Seq::empty()
    } else {
        let before = hits(rows.drop_last(), threshold, now);
        let (id, window) = rows.last();
        if kind_of(id, window) == Kind::Other && crate::quota::used(window, now).rank()
            >= threshold.rank() {
            before.push(used_text(id, window, now))
        } else {
            before
        }
    }
}

/// Texts with commas between them, or `-` where there is none.
pub open spec fn list_text(items: Seq<Seq<char>>) -> Seq<char> {
    if items.len() == 0 {
        "-"@
    } else {
        crate::text::joined(items, ", "@)
    }
}

fn list(items: &Vec<String>) -> (text: String)
    ensures
        text@ == list_text(crate::text::views(items@)),
{
    if items.len() == 0 {
        owned("-")
    } else {
        join(items, ", ")
    }
}

/// The windows besides the short and the weekly one that are used up to a threshold.
pub fn other_limits(quotas: &Quotas, threshold: Level, now: u64) -> (text: String)
    requires
        quotas.wf(),
    ensures
        text@ == list_text(hits(crate::table::rows_of(quotas@), threshold, now)),
{
    let ghost rows = quotas.entries();
    let mut found: Vec<String> = Vec::new();
    let mut i: usize = 0;
    assert(crate::text::views(found@) =~= hits(rows.take(0), threshold, now));
    while i < quotas.len()
        invariant
            quotas.wf(),
            rows == quotas.entries(),
            i <= rows.len(),
            crate::text::views(found@) == hits(rows.take(i as int), threshold, now),
        decreases rows.len() - i,
    {
        assert(rows.take(i + 1).drop_last() =~= rows.take(i as int));
        assert(rows.take(i + 1).last() == rows[i as int]);
        let ghost before = crate::text::views(found@);
        let window: Window = *quotas.value(i);
        let level = window.used(now);
        if kind(quotas.key(i), &window) == Kind::Other && level.at_least(threshold) {
            let start = concat3(quotas.key(i), " ", whole(level).as_str());
            let text = concat(start.as_str(), "%");
            found.push(text);
            assert(crate::text::views(found@) =~= before.push(text@));
        }
        i = i + 1;
    }
    proof {
        assert(rows.take(rows.len() as int) =~= rows);
        quotas.rows_are_unique();
    }
    list(&found)
}

/// A number that may be missing; `None` where there is something else.
pub open spec fn optional_number(value: Option<JsonView>) -> Option<Option<u64>> {
    match value {
        None => Some(None),
        Some(JsonView::Null) => Some(None),
        Some(inner) => match inner.unsigned() {
            Some(number) => Some(Some(number)),
            None => None,
        },
    }
}

fn number_in(value: Option<&Json>) -> (number: Option<Option<u64>>)
    ensures
        number == optional_number(crate::json::seen(value)),
{
    match value {
        None => Some(None),
        Some(Json::Null) => Some(None),
        Some(inner) => match inner.as_u64() {
            Some(number) => Some(Some(number)),
            None => None,
        },
    }
}

/// The share, the reset and the length in a JSON value: the members of an object, where the last
/// two may be missing, or the three items of a list.
pub open spec fn window_parts(value: JsonView) -> Option<
    (JsonView, Option<JsonView>, Option<JsonView>),
> {
    match value {
        JsonView::Object(_) => match value.member("used_percent"@) {
            Some(share) => Some((share, value.member("reset_at"@), value.member("window_minutes"@))),
            None => None,
        },
        JsonView::List(items) => if items.len() == 3 {
            Some((items[0], Some(items[1]), Some(items[2])))
        } else {
            None
        },
        _ => None,
    }
}

/// The window that a JSON value is.
pub open spec fn window_value(value: JsonView) -> Option<Window> {
    match window_parts(value) {
        Some((share, reset, length)) => match share.level() {
            Some(used_percent) => match optional_number(reset) {
                Some(reset_at) => match optional_number(length) {
                    Some(window_minutes) => Some(
                        Window { used_percent, reset_at, window_minutes },
                    ),
                    None => None,
                },
                None => None,
            },
            None => None,
        },
        None => None,
    }
}

fn window_in(value: &Json) -> (window: Option<Window>)
    ensures
        window == window_value(value@),
{
    let (share, reset, length): (&Json, Option<&Json>, Option<&Json>) = match value.as_array() {
        Some(items) => if items.len() == 3 {
            (&items[0], Some(&items[1]), Some(&items[2]))
        } else {
            return None;
        },
        None => match value.get("used_percent") {
            Some(share) => (share, value.get("reset_at"), value.get("window_minutes")),
            None => return None,
        },
    };
    let used_percent: Level = match share.as_level() {
        Some(level) => level,
        None => return None,
    };
    let reset_at: Option<u64> = match number_in(reset) {
        Some(number) => number,
        None => return None,
    };
    let window_minutes: Option<u64> = match number_in(length) {
        Some(number) => number,
        None => return None,
    };
    Some(Window { used_percent, reset_at, window_minutes })
}

/// The windows that members are; `None` where one of them is none.
pub open spec fn member_windows(members: Seq<(Seq<char>, JsonView)>) -> Option<Windows>
    decreases members.len(),
{
    if members.len() == 0 {
        Some(Map::empty())
    } else {
        match member_windows(members.drop_last()) {
            Some(windows) => match window_value(members.last().1) {
                Some(window) => Some(windows.insert(members.last().0, window)),
                None => None,
            },
            None => None,
        }
    }
}

/// The windows of an account; none where they cannot be read.
pub open spec fn account_windows(account: JsonView) -> Windows {
    match account.member("quotas"@) {
        Some(JsonView::Object(members)) => match member_windows(members) {
            Some(windows) => windows,
            None => Map::empty(),
        },
        _ => Map::empty(),
    }
}

proof fn lemma_unreadable(members: Seq<(Seq<char>, JsonView)>, count: int)
    requires
        0 <= count <= members.len(),
        member_windows(members.take(count)) is None,
    ensures
        member_windows(members) is None,
    decreases members.len() - count,
{
    if count < members.len() {
        assert(members.take(count + 1).drop_last() =~= members.take(count));
        lemma_unreadable(members, count + 1);
    } else {
        assert(members.take(count) =~= members);
    }
}

fn windows_of(account: &Json) -> (quotas: Quotas)
    ensures
        quotas.wf(),
        quotas@ == account_windows(account@),
{
    let members = match account.get("quotas") {
        Some(value) => match value.as_object() {
            Some(members) => members,
            None => return Table::new(),
        },
        None => return Table::new(),
    };
    let ghost all = crate::json::member_views(members@);
    let mut quotas: Quotas = Table::new();
    let mut i: usize = 0;
    assert(all.take(0) =~= Seq::empty());
    while i < members.len()
        invariant
            i <= members@.len(),
            all == crate::json::member_views(members@),
            account@.member("quotas"@) == Some(JsonView::Object(all)),
            quotas.wf(),
            member_windows(all.take(i as int)) == Some(quotas@),
        decreases members@.len() - i,
    {
        proof {
            assert(all.take(i + 1).drop_last() =~= all.take(i as int));
            assert(all.take(i + 1).last() == all[i as int]);
        }
        match window_in(&members[i].1) {
            Some(window) => {
                quotas.insert(members[i].0.clone(), window);
            },
            None => {
                proof {
                    lemma_unreadable(all, i + 1);
                }
                return Table::new();
            },
        }
        i = i + 1;
    }
    assert(all.take(members@.len() as int) =~= all);
    quotas
}

/// A number of an account, zero where it is missing.
pub open spec fn number_of(account: JsonView, name: Seq<char>) -> u64 {
    match account.member_unsigned(name) {
        Some(number) => number,
        None => 0,
    }
}

fn number_at(account: &Json, name: &str) -> (number: u64)
    ensures
        number == number_of(account@, name@),
{
    match account.u64_at(name) {
        Some(number) => number,
        None => 0,
    }
}

/// The threshold of an account.
pub open spec fn threshold_of(account: JsonView, default: Level) -> Level {
    match account.member("threshold_percent"@) {
        Some(value) => match value.level() {
            Some(level) => level,
            None => default,
        },
        None => default,
    }
}

/// What is noted of an account: its last error, and how long it is on hold.
pub open spec fn notes(account: JsonView, now: u64) -> Seq<Seq<char>> {
    let error = match account.member_text("last_error"@) {
        Some(text) => seq![text],
        None => Seq::empty(),
    };
    let hold_until = number_of(account, "hold_until"@);
    if hold_until > now {
        error.push("hold "@ + countdown_text(hold_until, now))
    } else {
        error
    }
}

/// What is told of a truth value that may be missing.
pub open spec fn truth_text(value: Option<bool>, yes: Seq<char>, no: Seq<char>) -> Seq<char> {
    match value {
        Some(true) => yes,
        Some(false) => no,
        None => "-"@,
    }
}

fn truth(value: Option<bool>, yes: &str, no: &str) -> (text: String)
    ensures
        text@ == truth_text(value, yes@, no@),
{
    match value {
        Some(true) => owned(yes),
        Some(false) => owned(no),
        None => owned("-"),
    }
}

/// The line of an account.
pub open spec fn account_cells(account: JsonView, default: Level, now: u64) -> Seq<Seq<char>> {
    let threshold = threshold_of(account, default);
    let quotas = account_windows(account);
    let rows = crate::table::rows_of(quotas);
    let hold_until = number_of(account, "hold_until"@);
    seq![
        match account.member_text("name"@) {
            Some(name) => name,
            None => "?"@,
        },
        label(
            account.member_boolean("disabled"@) == Some(true),
            hold_until,
            quotas,
            threshold,
            now,
        ),
        crate::percent::whole_text(threshold) + "%"@,
        window_text(tightest(rows, Kind::Short, now), now),
        window_text(tightest(rows, Kind::Weekly, now), now),
        list_text(hits(rows, threshold, now)),
        match account.member_signed("reset_credits"@) {
            Some(count) => crate::text::signed_text(count as int),
            None => "-"@,
        },
        crate::text::decimal_text(number_of(account, "in_flight"@) as nat),
        crate::text::decimal_text(number_of(account, "requests"@) as nat),
        crate::text::decimal_text(number_of(account, "errors"@) as nat),
        truth_text(account.member_boolean("last_probe_ok"@), "ok"@, "fail"@),
        list_text(notes(account, now)),
    ]
}

fn notes_of(account: &Json, now: u64) -> (found: Vec<String>)
    ensures
        crate::text::views(found@) == notes(account@, now),
{
    let mut found: Vec<String> = Vec::new();
    if let Some(error) = account.text_at("last_error") {
        found.push(owned(error));
    }
    let hold_until: u64 = number_at(account, "hold_until");
    if hold_until > now {
        found.push(concat("hold ", countdown(hold_until, now).as_str()));
    }
    assert(crate::text::views(found@) =~= notes(account@, now));
    found
}

/// The line of an account.
pub fn account_row(account: &Json, default: Level, now: u64) -> (row: Vec<String>)
    ensures
        crate::text::views(row@) == account_cells(account@, default, now),
        row@.len() == 12,
{
    let threshold: Level = match account.get("threshold_percent") {
        Some(value) => match value.as_level() {
            Some(level) => level,
            None => default,
        },
        None => default,
    };
    let quotas = windows_of(account);
    let disabled = account.bool_at("disabled") == Some(true);
    let hold_until: u64 = number_at(account, "hold_until");
    let mut row: Vec<String> = Vec::new();
    row.push(
        match account.text_at("name") {
            Some(name) => owned(name),
            None => owned("?"),
        },
    );
    row.push(owned(state_label(disabled, hold_until, &quotas, threshold, now)));
    row.push(concat(whole(threshold).as_str(), "%"));
    row.push(remaining(&quotas, Kind::Short, now));
    row.push(remaining(&quotas, Kind::Weekly, now));
    row.push(other_limits(&quotas, threshold, now));
    row.push(
        match account.i64_at("reset_credits") {
            Some(count) => signed_decimal(count),
            None => owned("-"),
        },
    );
    row.push(decimal(number_at(account, "in_flight")));
    row.push(decimal(number_at(account, "requests")));
    row.push(decimal(number_at(account, "errors")));
    row.push(truth(account.bool_at("last_probe_ok"), "ok", "fail"));
    row.push(list(&notes_of(account, now)));
    assert(crate::text::views(row@) =~= account_cells(account@, default, now));
    row
}

/// The head of the table.
pub open spec fn head_cells() -> Seq<Seq<char>> {
    seq![
        "ACCOUNT"@,
        "STATE"@,
        "LIMIT AT"@,
        "5H LEFT"@,
        "WEEK LEFT"@,
        "OTHER LIMITS"@,
        "RESETS"@,
        "ACTIVE"@,
        "CALLS"@,
        "ERRORS"@,
        "PROBE"@,
        "NOTE"@,
    ]
}

fn head() -> (row: Vec<String>)
    ensures
        crate::text::views(row@) == head_cells(),
        row@.len() == 12,
{
    let mut row: Vec<String> = Vec::new();
    row.push(owned("ACCOUNT"));
    row.push(owned("STATE"));
    row.push(owned("LIMIT AT"));
    row.push(owned("5H LEFT"));
    row.push(owned("WEEK LEFT"));
    row.push(owned("OTHER LIMITS"));
    row.push(owned("RESETS"));
    row.push(owned("ACTIVE"));
    row.push(owned("CALLS"));
    row.push(owned("ERRORS"));
    row.push(owned("PROBE"));
    row.push(owned("NOTE"));
    assert(crate::text::views(row@) =~= head_cells());
    row
}

/// The accounts of a status.
pub open spec fn accounts_of(status: JsonView) -> Seq<JsonView> {
    match status.member("accounts"@) {
        Some(value) => match value.items() {
            Some(items) => items,
            None => Seq::empty(),
        },
        None => Seq::empty(),
    }
}

/// The lines of the accounts of a status.
pub open spec fn account_lines(accounts: Seq<JsonView>, default: Level, now: u64) -> Seq<
    Seq<Seq<char>>,
> {
    accounts.map_values(|account: JsonView| account_cells(account, default, now))
}

/// How many lines say that an account is ready.
pub open spec fn ready_count(lines: Seq<Seq<Seq<char>>>) -> nat
    decreases lines.len(),
{
    if lines.len() == 0 {
        0
    } else {
        ready_count(lines.drop_last()) + if lines.last()[1] == "ready"@ {
            1nat
        } else {
            0nat
        }
    }
}

/// The line above the table.
pub open spec fn summary_text(
    accounts: nat,
    ready: nat,
    threshold: Level,
    routing: Option<bool>,
) -> Seq<char> {
    "accounts "@ + crate::text::decimal_text(accounts) + "  ready "@ + crate::text::decimal_text(
        ready,
    ) + "  threshold "@ + crate::percent::whole_text(threshold) + "%  routing "@ + truth_text(
        routing,
        "ok"@,
        "UNHEALTHY"@,
    ) + "\n"@
}

/// The account table of a status.
pub open spec fn status_text(status: JsonView, threshold: Level, now: u64) -> Seq<char> {
    let lines = account_lines(accounts_of(status), threshold, now);
    summary_text(
        lines.len(),
        ready_count(lines),
        threshold,
        status.member_boolean("routing_healthy"@),
    ) + crate::grid::grid_text(head_cells(), lines)
}

fn lines_of(items: &Vec<Json>, threshold: Level, now: u64) -> (lines: Vec<Vec<String>>)
    ensures
        crate::grid::cells(lines@) == account_lines(
            items@.map_values(|item: Json| item@),
            threshold,
            now,
        ),
        forall|k: int| 0 <= k < lines@.len() ==> (#[trigger] lines@[k])@.len() == 12,
        lines@.len() == items@.len(),
{
    let ghost all = items@.map_values(|item: Json| item@);
    let mut lines: Vec<Vec<String>> = Vec::new();
    let mut i: usize = 0;
    while i < items.len()
        invariant
            i <= items@.len(),
            all == items@.map_values(|item: Json| item@),
            lines@.len() == i,
            forall|k: int| 0 <= k < i ==> (#[trigger] lines@[k])@.len() == 12,
            forall|k: int|
                0 <= k < i ==> crate::text::views((#[trigger] lines@[k])@) == account_cells(
                    all[k],
                    threshold,
                    now,
                ),
        decreases items@.len() - i,
    {
        lines.push(account_row(&items[i], threshold, now));
        i = i + 1;
    }
    assert(crate::grid::cells(lines@) =~= account_lines(all, threshold, now));
    lines
}

fn count_ready(lines: &Vec<Vec<String>>) -> (count: u64)
    requires
        forall|k: int| 0 <= k < lines@.len() ==> (#[trigger] lines@[k])@.len() == 12,
    ensures
        count == ready_count(crate::grid::cells(lines@)),
{
    let ghost all = crate::grid::cells(lines@);
    let mut count: u64 = 0;
    let mut i: usize = 0;
    while i < lines.len()
        invariant
            i <= lines@.len(),
            all == crate::grid::cells(lines@),
            forall|k: int| 0 <= k < lines@.len() ==> (#[trigger] lines@[k])@.len() == 12,
            count == ready_count(all.take(i as int)),
            count <= i,
        decreases lines@.len() - i,
    {
        assert(all.take(i + 1).drop_last() =~= all.take(i as int));
        assert(all.take(i + 1).last() == crate::text::views(lines@[i as int]@));
        if same(lines[i][1].as_str(), "ready") {
            count = count + 1;
        }
        i = i + 1;
    }
    assert(all.take(lines@.len() as int) =~= all);
    count
}

/// The account table of a status, given the threshold of the configuration.
pub fn render(status: &Json, threshold: Level, now: u64) -> (text: String)
    ensures
        text@ == status_text(status@, threshold, now),
{
    let none: Vec<Json> = Vec::new();
    let items: &Vec<Json> = match status.get("accounts") {
        Some(value) => match value.as_array() {
            Some(items) => items,
            None => &none,
        },
        None => &none,
    };
    assert(items@.map_values(|item: Json| item@) =~= accounts_of(status@));
    let lines = lines_of(items, threshold, now);
    let ready: u64 = count_ready(&lines);
    let routing = truth(status.bool_at("routing_healthy"), "ok", "UNHEALTHY");
    let start = concat3("accounts ", decimal(lines.len() as u64).as_str(), "  ready ");
    let counts = concat3(start.as_str(), decimal(ready).as_str(), "  threshold ");
    let limits = concat3(counts.as_str(), whole(threshold).as_str(), "%  routing ");
    let summary = concat3(limits.as_str(), routing.as_str(), "\n");
    let table = grid(&head(), &lines);
    concat(summary.as_str(), table.as_str())
}

/// Only an account that is neither disabled nor on hold nor limited is told to be ready.
pub proof fn ready_account_is_free(
    disabled: bool,
    hold_until: u64,
    quotas: Windows,
    threshold: Level,
    now: u64,
)
    ensures
        label(disabled, hold_until, quotas, threshold, now) == "ready"@ <==> !disabled && hold_until
            <= now && !any_used(quotas, threshold, now),
{
    reveal_strlit("ready");
    reveal_strlit("disabled");
    reveal_strlit("waiting");
    reveal_strlit("limited");
    assert("ready"@.len() == 5);
    assert("disabled"@.len() == 8);
    assert("waiting"@.len() == 7);
    assert("limited"@.len() == 7);
}

/// The state of an account, the first of several: `disabled`, `waiting` while it is on hold,
/// `limited` while a window that has not reset is at its threshold, and else `ready`.
pub proof fn labels_tell_the_state(
    disabled: bool,
    hold_until: u64,
    quotas: Windows,
    threshold: Level,
    now: u64,
    id: Seq<char>,
)
    ensures
        ({
            let text = label(disabled, hold_until, quotas, threshold, now);
            &&& disabled ==> text == "disabled"@
            &&& !disabled && hold_until > now ==> text == "waiting"@
            &&& !disabled && hold_until <= now && quotas.contains_key(id) && crate::quota::used(
                quotas[id],
                now,
            ).rank() >= threshold.rank() ==> text == "limited"@
            &&& !disabled && hold_until <= now && (forall|other: Seq<char>| #[trigger]
                quotas.contains_key(other) ==> crate::quota::used(quotas[other], now).rank()
                    < threshold.rank()) ==> text == "ready"@
        }),
{
}

/// A time ahead is told in seconds up to a minute, in minutes up to an hour, in hours and minutes up
/// to a day, and in days and hours beyond.
pub proof fn countdowns_tell_the_time_ahead(
    at: u64,
    now: u64,
    days: nat,
    hours: nat,
    minutes: nat,
    seconds: nat,
)
    requires
        now + ((days * 24 + hours) * 60 + minutes) * 60 + seconds == at,
        hours < 24,
        minutes < 60,
        seconds < 60,
    ensures
        days == 0 && hours == 0 && minutes == 0 ==> countdown_text(at, now) == "+"@
            + crate::text::decimal_text(seconds) + "s"@,
        days == 0 && hours == 0 && minutes > 0 ==> countdown_text(at, now) == "+"@
            + crate::text::decimal_text(minutes) + "m"@,
        days == 0 && hours > 0 ==> countdown_text(at, now) == "+"@ + crate::text::decimal_text(hours)
            + "h"@ + two_digits(minutes) + "m"@,
        days > 0 ==> countdown_text(at, now) == "+"@ + crate::text::decimal_text(days) + "d"@
            + two_digits(hours) + "h"@,
{
    let total = at - now;
    assert(total / 60 == (days * 24 + hours) * 60 + minutes);
    assert(total / 60 / 60 == days * 24 + hours);
    assert(total / 60 % 60 == minutes);
}

/// The two windows of Codex are told by their length: up to a day is short, more is weekly; a window
/// of another name, or without a length, is another.
pub proof fn windows_are_told_by_their_length(id: Seq<char>, window: Window)
    ensures
        ({
            let own = id == "codex-primary"@ || id == "codex-secondary"@;
            let minutes = window.window_minutes;
            &&& kind_of(id, window) == Kind::Weekly <==> own && minutes is Some && minutes->Some_0
                > 24 * 60
            &&& kind_of(id, window) == Kind::Short <==> own && minutes is Some && 0
                < minutes->Some_0 <= 24 * 60
        }),
{
}

/// Of several windows of a kind the one is shown of which the least is left, the first of equals.
pub proof fn tightest_window_is_shown(
    rows: Seq<(Seq<char>, Window)>,
    wanted: Kind,
    now: u64,
    i: int,
)
    requires
        0 <= i < rows.len(),
        kind_of(rows[i].0, rows[i].1) == wanted,
    ensures
        tightest(rows, wanted, now) matches Some(best) && {
            &&& crate::percent::left_units(crate::quota::used(best, now))
                <= crate::percent::left_units(crate::quota::used(rows[i].1, now))
            &&& exists|k: int|
                0 <= k < rows.len() && kind_of((#[trigger] rows[k]).0, rows[k].1) == wanted
                    && rows[k].1 == best
        },
    decreases rows.len(),
{
    let rest = rows.drop_last();
    let last = rows.len() - 1;
    assert forall|j: int| 0 <= j < last implies #[trigger] rows[j] == rest[j] by {}
    if i < last {
        assert(kind_of(rest[i].0, rest[i].1) == wanted);
        tightest_window_is_shown(rest, wanted, now, i);
        let best = tightest(rest, wanted, now)->Some_0;
        let k = choose|k: int|
            0 <= k < rest.len() && kind_of((#[trigger] rest[k]).0, rest[k].1) == wanted && rest[k].1
                == best;
        assert(rows[k] == rest[k]);
    } else {
        lemma_tightest_is_a_row(rest, wanted, now);
        if tightest(rest, wanted, now) is Some {
            let k = choose|k: int|
                0 <= k < rest.len() && kind_of((#[trigger] rest[k]).0, rest[k].1) == wanted
                    && rest[k].1 == tightest(rest, wanted, now)->Some_0;
            assert(rows[k] == rest[k]);
        }
    }
    assert(rows[last] == rows.last());
}

proof fn lemma_tightest_is_a_row(rows: Seq<(Seq<char>, Window)>, wanted: Kind, now: u64)
    ensures
        tightest(rows, wanted, now) matches Some(best) ==> exists|k: int|
            0 <= k < rows.len() && kind_of((#[trigger] rows[k]).0, rows[k].1) == wanted && rows[k].1
                == best,
    decreases rows.len(),
{
    if rows.len() > 0 {
        let rest = rows.drop_last();
        lemma_tightest_is_a_row(rest, wanted, now);
        if tightest(rest, wanted, now) is Some {
            let k = choose|k: int|
                0 <= k < rest.len() && kind_of((#[trigger] rest[k]).0, rest[k].1) == wanted
                    && rest[k].1 == tightest(rest, wanted, now)->Some_0;
            assert(rows[k] == rest[k]);
        }
        assert(rows[rows.len() - 1] == rows.last());
    }
}

/// A line of the status shows of an account its name, its state, its threshold, what is left of its
/// windows, its credits, its calls and errors, whether its last probe was good, and its notes.
pub proof fn status_shows_the_account(account: JsonView, default: Level, now: u64)
    ensures
        ({
            let cells = account_cells(account, default, now);
            let number = |name: Seq<char>|
                crate::text::decimal_text(
                    match account.member_unsigned(name) {
                        Some(count) => count as nat,
                        None => 0,
                    },
                );
            let rows = crate::table::rows_of(account_windows(account));
            &&& cells.len() == 12
            &&& account.member_text("name"@) is Some ==> cells[0] == account.member_text(
                "name"@,
            )->Some_0
            &&& account.member_boolean("disabled"@) == Some(true) ==> cells[1] == "disabled"@
            &&& cells[3] == window_text(tightest(rows, Kind::Short, now), now)
            &&& cells[4] == window_text(tightest(rows, Kind::Weekly, now), now)
            &&& account.member_signed("reset_credits"@) is Some ==> cells[6]
                == crate::text::signed_text(account.member_signed("reset_credits"@)->Some_0 as int)
            &&& account.member_signed("reset_credits"@) is None ==> cells[6] == "-"@
            &&& cells[7] == number("in_flight"@)
            &&& cells[8] == number("requests"@)
            &&& cells[9] == number("errors"@)
            &&& account.member_boolean("last_probe_ok"@) == Some(true) ==> cells[10] == "ok"@
            &&& account.member_boolean("last_probe_ok"@) == Some(false) ==> cells[10] == "fail"@
            &&& account.member_boolean("last_probe_ok"@) is None ==> cells[10] == "-"@
        }),
{
}

/// The summary counts the accounts that are ready.
pub proof fn ready_accounts_are_counted(lines: Seq<Seq<Seq<char>>>, line: Seq<Seq<char>>)
    ensures
        ready_count(Seq::empty()) == 0,
        line[1] == "ready"@ ==> ready_count(lines.push(line)) == ready_count(lines) + 1,
        line[1] != "ready"@ ==> ready_count(lines.push(line)) == ready_count(lines),
{
    assert(lines.push(line).drop_last() =~= lines);
}

/// What is shown of a window: what is left of it, and when it resets where that is ahead.
pub proof fn windows_show_what_is_left(window: Window, now: u64)
    ensures
        window_text(None, now) == "-"@,
        ({
            let share = crate::percent::left_text(crate::quota::used(window, now)) + "%"@;
            &&& window.reset_at is Some && window.reset_at->Some_0 > now ==> window_text(
                Some(window),
                now,
            ) == share + " ("@ + countdown_text(window.reset_at->Some_0, now) + ")"@
            &&& window.reset_at is None || window.reset_at->Some_0 <= now ==> window_text(
                Some(window),
                now,
            ) == share
        }),
{
}

/// A window of the status is read from an object with its share, its reset and its length, of which
/// the two last may be missing or null.
pub proof fn status_windows_are_read(value: JsonView, share: Level, reset: u64, length: u64)
    requires
        value is Object,
        value.member("used_percent"@) is Some,
        value.member("used_percent"@)->Some_0.level() == Some(share),
    ensures
        ({
            let window = window_value(value);
            &&& value.member("reset_at"@) is None && value.member("window_minutes"@) is None
                ==> window == Some(
                Window { used_percent: share, reset_at: None, window_minutes: None },
            )
            &&& value.member_unsigned("reset_at"@) == Some(reset) && value.member_unsigned(
                "window_minutes"@,
            ) == Some(length) ==> window == Some(
                Window {
                    used_percent: share,
                    reset_at: Some(reset),
                    window_minutes: Some(length),
                },
            )
            &&& value.member("reset_at"@) == Some(JsonView::Null) && value.member_unsigned(
                "window_minutes"@,
            ) == Some(length) ==> window == Some(
                Window { used_percent: share, reset_at: None, window_minutes: Some(length) },
            )
        }),
{
    crate::json::members_are_read_as_what_they_are(value, "reset_at"@);
    crate::json::members_are_read_as_what_they_are(value, "window_minutes"@);
    crate::json::values_are_read_as_what_they_are(JsonView::Null);
}

/// The notes of an account are its last error and how long its hold lasts.
pub proof fn notes_tell_what_is_wrong(account: JsonView, now: u64, text: Seq<char>)
    ensures
        ({
            let hold = account.member_unsigned("hold_until"@);
            let ahead = hold is Some && hold->Some_0 > now;
            let line = "hold "@ + countdown_text(hold->Some_0, now);
            &&& account.member_text("last_error"@) == Some(text) && !ahead ==> notes(account, now)
                == seq![text]
            &&& account.member_text("last_error"@) == Some(text) && ahead ==> notes(account, now)
                == seq![text, line]
            &&& account.member_text("last_error"@) is None && ahead ==> notes(account, now)
                == seq![line]
            &&& account.member_text("last_error"@) is None && !ahead ==> notes(account, now).len()
                == 0
        }),
{
    let line = "hold "@ + countdown_text(account.member_unsigned("hold_until"@)->Some_0, now);
    assert(seq![text].push(line) =~= seq![text, line]);
    assert(Seq::<Seq<char>>::empty().push(line) =~= seq![line]);
}

/// The first line of the status, and the head of its table.
pub proof fn status_is_summed_up(accounts: nat, ready: nat, threshold: Level, number: nat)
    ensures
        ({
            let front = "accounts "@ + crate::text::decimal_text(accounts) + "  ready "@
                + crate::text::decimal_text(ready) + "  threshold "@ + crate::percent::whole_text(
                threshold,
            ) + "%  routing "@;
            &&& summary_text(accounts, ready, threshold, Some(true)) == front + "ok"@ + "\n"@
            &&& summary_text(accounts, ready, threshold, Some(false)) == front + "UNHEALTHY"@
                + "\n"@
            &&& summary_text(accounts, ready, threshold, None) == front + "-"@ + "\n"@
        }),
        head_cells() == seq![
            "ACCOUNT"@,
            "STATE"@,
            "LIMIT AT"@,
            "5H LEFT"@,
            "WEEK LEFT"@,
            "OTHER LIMITS"@,
            "RESETS"@,
            "ACTIVE"@,
            "CALLS"@,
            "ERRORS"@,
            "PROBE"@,
            "NOTE"@,
        ],
        number < 10 ==> two_digits(number) == "0"@ + crate::text::decimal_text(number),
        number >= 10 ==> two_digits(number) == crate::text::decimal_text(number),
        list_text(Seq::empty()) == "-"@,
{
}

/// Other limits are listed where they are at the threshold.
pub proof fn other_limits_are_listed_when_hit(
    rows: Seq<(Seq<char>, Window)>,
    row: (Seq<char>, Window),
    threshold: Level,
    now: u64,
)
    ensures
        ({
            let used = crate::quota::used(row.1, now);
            let hit = kind_of(row.0, row.1) == Kind::Other && used.rank() >= threshold.rank();
            let all = hits(rows.push(row), threshold, now);
            &&& hit ==> all == hits(rows, threshold, now).push(
                row.0 + " "@ + crate::percent::whole_text(used) + "%"@,
            )
            &&& !hit ==> all == hits(rows, threshold, now)
        }),
        hits(Seq::empty(), threshold, now).len() == 0,
{
    assert(rows.push(row).drop_last() =~= rows);
}

/// The parts of a status are read by name: its accounts, and of an account its threshold and windows.
pub proof fn status_is_read_by_name(
    status: JsonView,
    account: JsonView,
    list: JsonView,
    items: Seq<JsonView>,
    default: Level,
)
    ensures
        status.member("accounts"@) == Some(list) && list.items() == Some(items) ==> accounts_of(
            status,
        ) == items,
        status.member("accounts"@) is None ==> accounts_of(status).len() == 0,
        account.member("threshold_percent"@) is None ==> threshold_of(account, default) == default,
        account.member("threshold_percent"@) == Some(list) && list.level() is Some ==> threshold_of(
            account,
            default,
        ) == list.level()->Some_0,
        account.member("quotas"@) is None ==> account_windows(account).dom() =~= Set::empty(),
{
}

} // verus!
