//! Credits that reset the usage limits of an account.
//!
//! An account can hold reset credits. Redeeming one clears its windows at once. A credit is redeemed
//! on request, or without being asked for an account that opted in.
use crate::grid::grid;
use crate::json::Json;
use crate::json::JsonView;
use crate::percent::whole;
use crate::pool::AccountStateView;
use crate::pool::Pool;
use crate::pool::PoolView;
use crate::quota::reset_credits;
use crate::status::countdown;
use crate::level::Level;
use crate::text::concat;
use crate::text::concat3;
use crate::text::decimal;
use crate::text::owned;
use crate::text::same;
use crate::text::signed_decimal;
use crate::text::trim;
use vstd::prelude::*;
use vstd::string::*;

verus! {

/// How many seconds pass between two redemptions of an account that nobody asked for.
pub const AUTO_RETRY_SECONDS: u64 = 300;

/// How many bytes an answer may hold.
pub const MAX_RESPONSE: usize = 262_144;

/// What an upstream says of a redemption.
#[derive(Clone, Copy, Debug, PartialEq, Eq, Structural)]
pub enum Code {
    /// A credit was used and the windows were reset.
    Reset,
    /// No window needed a reset. No credit was used.
    NothingToReset,
    /// The account has no credit.
    NoCredit,
    /// The same attempt had reset the windows before.
    AlreadyRedeemed,
}

/// The name of a code.
pub open spec fn code_text(code: Code) -> Seq<char> {
    match code {
        Code::Reset => "reset"@,
        Code::NothingToReset => "nothing_to_reset"@,
        Code::NoCredit => "no_credit"@,
        Code::AlreadyRedeemed => "already_redeemed"@,
    }
}

/// The code of a name.
pub open spec fn code_of(text: Seq<char>) -> Option<Code> {
    if text == "reset"@ {
        Some(Code::Reset)
    } else if text == "nothing_to_reset"@ {
        Some(Code::NothingToReset)
    } else if text == "no_credit"@ {
        Some(Code::NoCredit)
    } else if text == "already_redeemed"@ {
        Some(Code::AlreadyRedeemed)
    } else {
        None
    }
}

impl Code {
    /// The name of the code.
    pub fn name(self) -> (text: &'static str)
        ensures
            text@ == code_text(self),
    {
        match self {
            Code::Reset => "reset",
            Code::NothingToReset => "nothing_to_reset",
            Code::NoCredit => "no_credit",
            Code::AlreadyRedeemed => "already_redeemed",
        }
    }

    /// The code of a name.
    pub fn of(text: &str) -> (code: Option<Code>)
        ensures
            code == code_of(text@),
    {
        if same(text, "reset") {
            Some(Code::Reset)
        } else if same(text, "nothing_to_reset") {
            Some(Code::NothingToReset)
        } else if same(text, "no_credit") {
            Some(Code::NoCredit)
        } else if same(text, "already_redeemed") {
            Some(Code::AlreadyRedeemed)
        } else {
            None
        }
    }
}

/// The outcome of a redemption.
#[derive(Clone, Copy, Debug, PartialEq, Eq, Structural)]
pub struct Outcome {
    pub code: Code,
    pub windows_reset: i64,
}

/// The windows are clear after this outcome.
pub open spec fn is_reset(code: Code) -> bool {
    code == Code::Reset || code == Code::AlreadyRedeemed
}

impl Outcome {
    /// Whether the windows are clear after this outcome.
    pub fn reset(&self) -> (yes: bool)
        ensures
            yes == is_reset(self.code),
    {
        match self.code {
            Code::Reset => true,
            Code::AlreadyRedeemed => true,
            _ => false,
        }
    }
}

/// The code that a JSON value is: its name, alone or with nothing under it.
pub open spec fn code_value(value: JsonView) -> Option<Code> {
    match value.variant() {
        Some(name) => code_of(name),
        None => None,
    }
}

/// The code and the count of windows in a JSON value: the members of an object, or the items of a
/// list. The count may be missing.
pub open spec fn outcome_parts(value: JsonView) -> Option<(JsonView, Option<JsonView>)> {
    match value {
        JsonView::Object(_) => match value.member("code"@) {
            Some(code) => Some((code, value.member("windows_reset"@))),
            None => None,
        },
        JsonView::List(items) => if items.len() == 1 {
            Some((items[0], None))
        } else if items.len() == 2 {
            Some((items[0], Some(items[1])))
        } else {
            None
        },
        _ => None,
    }
}

/// The outcome that a JSON value is.
pub open spec fn outcome_of(value: JsonView) -> Option<Outcome> {
    match outcome_parts(value) {
        Some((name, count)) => match code_value(name) {
            Some(code) => match count {
                None => Some(Outcome { code, windows_reset: 0 }),
                Some(number) => match number.signed() {
                    Some(windows_reset) => Some(Outcome { code, windows_reset }),
                    None => None,
                },
            },
            None => None,
        },
        None => None,
    }
}

/// The outcome that a JSON value is.
pub fn read_outcome(value: &Json) -> (outcome: Option<Outcome>)
    ensures
        outcome == outcome_of(value@),
{
    let (name, count): (&Json, Option<&Json>) = match value.as_array() {
        Some(items) => if items.len() == 1 {
            (&items[0], None)
        } else if items.len() == 2 {
            (&items[0], Some(&items[1]))
        } else {
            return None;
        },
        None => match value.get("code") {
            Some(code) => (code, value.get("windows_reset")),
            None => return None,
        },
    };
    let code: Code = match name.as_variant() {
        Some(text) => match Code::of(text) {
            Some(code) => code,
            None => return None,
        },
        None => return None,
    };
    match count {
        None => Some(Outcome { code, windows_reset: 0 }),
        Some(count) => match count.as_i64() {
            Some(windows_reset) => Some(Outcome { code, windows_reset }),
            None => None,
        },
    }
}

/// The message of an answer that says what went wrong.
pub open spec fn message_of(value: Option<JsonView>) -> Seq<char> {
    match value {
        Some(inner) => {
            let error = match inner.inner("error"@, "message"@) {
                Some(message) => message.text(),
                None => None,
            };
            match error {
                Some(text) => text,
                None => match inner.member_text("detail"@) {
                    Some(text) => text,
                    None => match inner.member_text("message"@) {
                        Some(text) => text,
                        None => "no error message"@,
                    },
                },
            }
        },
        None => "no error message"@,
    }
}

/// The message of an answer that says what went wrong, given its JSON value where it is one.
pub fn message_in(value: Option<&Json>) -> (text: String)
    ensures
        text@ == message_of(crate::json::seen(value)),
{
    match value {
        Some(inner) => {
            let error: Option<&str> = match inner.pointer("error", "message") {
                Some(message) => message.as_str(),
                None => None,
            };
            match error {
                Some(text) => owned(text),
                None => match inner.text_at("detail") {
                    Some(text) => owned(text),
                    None => match inner.text_at("message") {
                        Some(text) => owned(text),
                        None => owned("no error message"),
                    },
                },
            }
        },
        None => owned("no error message"),
    }
}

/// The message of an answer that says what went wrong.
pub fn summary(bytes: &[u8]) -> (text: String)
    ensures
        text@ == message_of(crate::json::json_value(bytes@)),
{
    let value = Json::parse(bytes);
    message_in(value.as_ref())
}

/// Reads an answer about reset credits: its JSON value, or what is told where it cannot be used.
pub fn read_answer(status: u16, bytes: &[u8]) -> (result: Result<Json, String>)
    ensures
        match result {
            Ok(value) => 200 <= status < 300 && crate::json::json_value(bytes@) == Some(value@),
            Err(message) => if 200 <= status < 300 {
                crate::json::json_value(bytes@) is None && message@
                    == "upstream answered with invalid JSON"@
            } else {
                message@ == "upstream answered "@ + crate::text::decimal_text(status as nat) + ": "@
                    + message_of(crate::json::json_value(bytes@))
            },
        },
{
    if status < 200 || status >= 300 {
        let start = concat3("upstream answered ", decimal(status as u64).as_str(), ": ");
        return Err(concat(start.as_str(), summary(bytes).as_str()));
    }
    match Json::parse(bytes) {
        Some(value) => Ok(value),
        None => Err(owned("upstream answered with invalid JSON")),
    }
}

/// Why nothing is redeemed.
#[derive(Clone, Copy, Debug, PartialEq, Eq, Structural)]
pub enum ResetError {
    Account,
    Endpoint,
    Credit,
}

/// What is told of an error.
pub open spec fn error_text(error: ResetError) -> Seq<char> {
    match error {
        ResetError::Account => "unknown account"@,
        ResetError::Endpoint => "this account has no usage-limit reset endpoint"@,
        ResetError::Credit => "credit id must not be empty"@,
    }
}

impl ResetError {
    /// What is told of the error.
    pub fn message(self) -> (text: &'static str)
        ensures
            text@ == error_text(self),
    {
        match self {
            ResetError::Account => "unknown account",
            ResetError::Endpoint => "this account has no usage-limit reset endpoint",
            ResetError::Credit => "credit id must not be empty",
        }
    }
}

/// The members of the JSON object that asks for a redemption.
pub fn redeem_fields(request_id: &str, credit_id: Option<&str>) -> (result: Result<
    Vec<(String, String)>,
    ResetError,
>)
    ensures
        match result {
            Ok(fields) => match credit_id {
                Some(id) => id@.len() > 0 && crate::url::pair_views(fields@) == seq![
                    ("redeem_request_id"@, request_id@),
                    ("credit_id"@, id@),
                ],
                None => crate::url::pair_views(fields@) == seq![
                    ("redeem_request_id"@, request_id@),
                ],
            },
            Err(error) => error == ResetError::Credit && (credit_id matches Some(id) && id@.len()
                == 0),
        },
{
    let mut fields: Vec<(String, String)> = Vec::new();
    fields.push((owned("redeem_request_id"), owned(request_id)));
    match credit_id {
        Some(id) => {
            if id.unicode_len() == 0 {
                return Err(ResetError::Credit);
            }
            fields.push((owned("credit_id"), owned(id)));
            assert(crate::url::pair_views(fields@) =~= seq![
                ("redeem_request_id"@, request_id@),
                ("credit_id"@, id@),
            ]);
        },
        None => {
            assert(crate::url::pair_views(fields@) =~= seq![
                ("redeem_request_id"@, request_id@),
            ]);
        },
    }
    Ok(fields)
}

/// The pool once a redemption was answered.
pub open spec fn redeemed(pool: PoolView, idx: int, code: Code, at: u64) -> PoolView {
    let account = pool.state.accounts[idx];
    match code {
        Code::NoCredit => pool.with_account(
            idx,
            AccountStateView { reset_credits: Some(0i64), ..account },
        ),
        Code::NothingToReset => pool,
        _ => pool.with_account(
            idx,
            AccountStateView {
                resets: account.resets.wrapping_add(1),
                last_reset: Some(at),
                ..account
            },
        ),
    }
}

/// The pool once an account was chosen for a redemption that nobody asked for.
pub open spec fn reserved(pool: PoolView, idx: int, at: u64) -> PoolView {
    let account = pool.state.accounts[idx];
    let until = crate::affinity::later(at, AUTO_RETRY_SECONDS);
    pool.with_account(
        idx,
        AccountStateView {
            reset_retry_at: if account.reset_retry_at < until {
                until
            } else {
                account.reset_retry_at
            },
            ..account
        },
    )
}

impl Pool {
    /// Where the reset credits of an account are listed.
    pub fn reset_endpoint(&self, idx: usize) -> (result: Result<String, ResetError>)
        requires
            self.wf(),
        ensures
            match result {
                Ok(url) => idx < self@.config.accounts.len()
                    && self@.config.accounts[idx as int].is_reset_credits(url@),
                Err(ResetError::Account) => idx >= self@.config.accounts.len(),
                Err(error) => error == ResetError::Endpoint && idx < self@.config.accounts.len()
                    && !self@.config.accounts[idx as int].has_reset_credits(),
            },
    {
        match self.account(idx) {
            Some(account) => match account.reset_credits() {
                Some(url) => Ok(url),
                None => Err(ResetError::Endpoint),
            },
            None => Err(ResetError::Account),
        }
    }

    /// Takes in the outcome of a redemption at a given time.
    pub fn take_outcome(&mut self, idx: usize, outcome: Outcome, at: u64)
        requires
            old(self).wf(),
            idx < old(self)@.state.accounts.len(),
        ensures
            final(self).wf(),
            final(self)@ == redeemed(old(self)@, idx as int, outcome.code, at),
    {
        match outcome.code {
            Code::Reset => {
                self.record_reset_at(idx, at);
            },
            Code::AlreadyRedeemed => {
                self.record_reset_at(idx, at);
            },
            Code::NoCredit => {
                self.set_reset_credits(idx, Some(0));
            },
            Code::NothingToReset => {},
        }
    }

    /// Chooses an account for a redemption that nobody asked for, where one may be redeemed: then
    /// none is redeemed for it for a while, so that a burst of requests spends one credit.
    pub fn begin_auto_reset(&mut self, idx: usize, at: u64) -> (begun: bool)
        requires
            old(self).wf(),
        ensures
            final(self).wf(),
            begun == old(self)@.reset_ready(idx as int, at),
            final(self)@ == if begun {
                reserved(old(self)@, idx as int, at)
            } else {
                old(self)@
            },
    {
        if !self.auto_reset_ready(idx, at) {
            return false;
        }
        self.defer_reset(idx, at.saturating_add(AUTO_RETRY_SECONDS));
        true
    }
}

/// The text of a member that is not blank, or another text.
pub open spec fn shown(credit: JsonView, name: Seq<char>, fallback: Seq<char>) -> Seq<char> {
    match credit.member_text(name) {
        Some(text) => if crate::text::trimmed(text).len() > 0 {
            text
        } else {
            fallback
        },
        None => fallback,
    }
}

fn show(credit: &Json, name: &str, fallback: &str) -> (text: String)
    ensures
        text@ == shown(credit@, name@, fallback@),
{
    match credit.text_at(name) {
        Some(text) => if trim(text).as_str().unicode_len() > 0 {
            owned(text)
        } else {
            owned(fallback)
        },
        None => owned(fallback),
    }
}

/// The line of a credit.
pub open spec fn credit_cells(credit: JsonView) -> Seq<Seq<char>> {
    seq![
        shown(credit, "id"@, "?"@),
        shown(credit, "status"@, "?"@),
        shown(credit, "title"@, "Full reset"@),
        shown(credit, "expires_at"@, "never"@),
    ]
}

/// The head of the list of credits.
pub open spec fn credit_head() -> Seq<Seq<char>> {
    seq!["ID"@, "STATUS"@, "TITLE"@, "EXPIRES"@]
}

/// The credits of an answer.
pub open spec fn credits_in(value: JsonView) -> Seq<JsonView> {
    match value.member("credits"@) {
        Some(list) => match list.items() {
            Some(items) => items,
            None => Seq::empty(),
        },
        None => Seq::empty(),
    }
}

/// The list of the credits of an answer.
pub open spec fn credits_text(value: JsonView) -> Seq<char> {
    let available = match crate::quota::credits_of(value) {
        Some(count) => count as int,
        None => 0,
    };
    let first = "reset credits available: "@ + crate::text::signed_text(available) + "\n"@;
    let lines = credits_in(value).map_values(|credit: JsonView| credit_cells(credit));
    if lines.len() == 0 {
        first
    } else {
        first + crate::grid::grid_text(credit_head(), lines)
    }
}

fn credit_row(credit: &Json) -> (row: Vec<String>)
    ensures
        crate::text::views(row@) == credit_cells(credit@),
        row@.len() == 4,
{
    let mut row: Vec<String> = Vec::new();
    row.push(show(credit, "id", "?"));
    row.push(show(credit, "status", "?"));
    row.push(show(credit, "title", "Full reset"));
    row.push(show(credit, "expires_at", "never"));
    assert(crate::text::views(row@) =~= credit_cells(credit@));
    row
}

/// The list of the credits of an answer.
pub fn render_credits(credits: &Json) -> (text: String)
    ensures
        text@ == credits_text(credits@),
{
    let available: i64 = match reset_credits(credits) {
        Some(count) => count,
        None => 0,
    };
    let first = concat3("reset credits available: ", signed_decimal(available).as_str(), "\n");
    let none: Vec<Json> = Vec::new();
    let items: &Vec<Json> = match credits.get("credits") {
        Some(list) => match list.as_array() {
            Some(items) => items,
            None => &none,
        },
        None => &none,
    };
    let ghost all = items@.map_values(|item: Json| item@);
    assert(all =~= credits_in(credits@));
    let ghost wanted = all.map_values(|credit: JsonView| credit_cells(credit));
    let mut lines: Vec<Vec<String>> = Vec::new();
    let mut i: usize = 0;
    while i < items.len()
        invariant
            i <= items@.len(),
            all == items@.map_values(|item: Json| item@),
            wanted == all.map_values(|credit: JsonView| credit_cells(credit)),
            lines@.len() == i,
            forall|k: int| 0 <= k < i ==> (#[trigger] lines@[k])@.len() == 4,
            forall|k: int|
                0 <= k < i ==> crate::text::views((#[trigger] lines@[k])@) == wanted[k],
        decreases items@.len() - i,
    {
        lines.push(credit_row(&items[i]));
        i = i + 1;
    }
    assert(crate::grid::cells(lines@) =~= wanted);
    if lines.len() == 0 {
        return first;
    }
    let mut head: Vec<String> = Vec::new();
    head.push(owned("ID"));
    head.push(owned("STATUS"));
    head.push(owned("TITLE"));
    head.push(owned("EXPIRES"));
    assert(crate::text::views(head@) =~= credit_head());
    concat(first.as_str(), grid(&head, &lines).as_str())
}

/// What is told of the outcome of a redemption.
pub open spec fn outcome_line(account: Seq<char>, code: Seq<char>, windows: int) -> Seq<char> {
    account + if code == "reset"@ {
        ": reset "@ + crate::text::signed_text(windows) + " window(s)"@
    } else if code == "already_redeemed"@ {
        ": this request already reset the windows"@
    } else if code == "nothing_to_reset"@ {
        ": no window needed a reset; no credit was used"@
    } else if code == "no_credit"@ {
        ": no reset credit is available"@
    } else {
        ": "@ + code
    }
}

/// What is told of a window after a redemption; only the windows of Codex are told of.
pub open spec fn outcome_window(id: Seq<char>, window: JsonView, now: u64) -> Seq<char> {
    if id != "codex-primary"@ && id != "codex-secondary"@ {
        Seq::empty()
    } else {
        let used = match window.member("used_percent"@) {
            Some(share) => match share.level() {
                Some(level) => level,
                None => Level { bits: 0 },
            },
            None => Level { bits: 0 },
        };
        "  "@ + id + " "@ + crate::percent::whole_text(used) + "% used"@ + (
        match window.member_unsigned("reset_at"@) {
            Some(at) => if at > now {
                ", resets "@ + crate::status::countdown_text(at, now)
            } else {
                ""@
            },
            None => ""@,
        }) + "\n"@
    }
}

/// What is told of windows after a redemption.
pub open spec fn outcome_windows(members: Seq<(Seq<char>, JsonView)>, now: u64) -> Seq<char>
    decreases members.len(),
{
    if members.len() == 0 {
        Seq::empty()
    } else {
        outcome_windows(members.drop_last(), now) + outcome_window(
            members.last().0,
            members.last().1,
            now,
        )
    }
}

/// A text of a member, or `?`.
pub open spec fn text_or_unknown(value: JsonView, name: Seq<char>) -> Seq<char> {
    match value.member_text(name) {
        Some(text) => text,
        None => "?"@,
    }
}

/// What is told of the answer to a request that redeems a credit.
pub open spec fn outcome_text(outcome: JsonView, now: u64) -> Seq<char> {
    let windows = match outcome.member_signed("windows_reset"@) {
        Some(count) => count as int,
        None => 0,
    };
    outcome_line(
        text_or_unknown(outcome, "account"@),
        text_or_unknown(outcome, "code"@),
        windows,
    ) + (match outcome.member_signed("reset_credits"@) {
        Some(count) => "; "@ + crate::text::signed_text(count as int) + " reset credit(s) left"@,
        None => ""@,
    }) + "\n"@ + match outcome.member("quotas"@) {
        Some(JsonView::Object(members)) => outcome_windows(members, now),
        _ => Seq::empty(),
    }
}

fn known(value: &Json, name: &str) -> (text: String)
    ensures
        text@ == text_or_unknown(value@, name@),
{
    match value.text_at(name) {
        Some(text) => owned(text),
        None => owned("?"),
    }
}

fn window_line(id: &str, window: &Json, now: u64) -> (text: String)
    ensures
        text@ == outcome_window(id@, window@, now),
{
    if !same(id, "codex-primary") && !same(id, "codex-secondary") {
        let none = String::new();
        assert(none@ =~= Seq::<char>::empty());
        return none;
    }
    let used: Level = match window.get("used_percent") {
        Some(share) => match share.as_level() {
            Some(level) => level,
            None => Level { bits: 0 },
        },
        None => Level { bits: 0 },
    };
    let resets = match window.u64_at("reset_at") {
        Some(at) => if at > now {
            concat(", resets ", countdown(at, now).as_str())
        } else {
            owned("")
        },
        None => owned(""),
    };
    let name = concat3("  ", id, " ");
    let share = concat3(name.as_str(), whole(used).as_str(), "% used");
    concat3(share.as_str(), resets.as_str(), "\n")
}

/// What is told of the answer to a request that redeems a credit.
pub fn render_outcome(outcome: &Json, now: u64) -> (text: String)
    ensures
        text@ == outcome_text(outcome@, now),
{
    let account = known(outcome, "account");
    let code = known(outcome, "code");
    let windows: i64 = match outcome.i64_at("windows_reset") {
        Some(count) => count,
        None => 0,
    };
    let rest = if same(code.as_str(), "reset") {
        concat3(": reset ", signed_decimal(windows).as_str(), " window(s)")
    } else if same(code.as_str(), "already_redeemed") {
        owned(": this request already reset the windows")
    } else if same(code.as_str(), "nothing_to_reset") {
        owned(": no window needed a reset; no credit was used")
    } else if same(code.as_str(), "no_credit") {
        owned(": no reset credit is available")
    } else {
        concat(": ", code.as_str())
    };
    let first = concat(account.as_str(), rest.as_str());
    let left = match outcome.i64_at("reset_credits") {
        Some(count) => concat3("; ", signed_decimal(count).as_str(), " reset credit(s) left"),
        None => owned(""),
    };
    let mut text = concat3(first.as_str(), left.as_str(), "\n");
    let ghost head = text@;
    if let Some(value) = outcome.get("quotas") {
        if let Some(members) = value.as_object() {
            let ghost all = crate::json::member_views(members@);
            let mut i: usize = 0;
            assert(head + outcome_windows(all.take(0), now) =~= head);
            while i < members.len()
                invariant
                    i <= members@.len(),
                    all == crate::json::member_views(members@),
                    text@ == head + outcome_windows(all.take(i as int), now),
                decreases members@.len() - i,
            {
                assert(all.take(i + 1).drop_last() =~= all.take(i as int));
                assert(all.take(i + 1).last() == all[i as int]);
                let next = window_line(members[i].0.as_str(), &members[i].1, now);
                let ghost before = outcome_windows(all.take(i as int), now);
                text = concat(text.as_str(), next.as_str());
                assert((head + before) + next@ =~= head + (before + next@));
                i = i + 1;
            }
            assert(all.take(members@.len() as int) =~= all);
            return text;
        }
    }
    assert(head + Seq::<char>::empty() =~= head);
    text
}

/// The name of a code reads as the code.
pub proof fn code_is_read_back(code: Code)
    ensures
        code_of(code_text(code)) == Some(code),
{
    reveal_strlit("reset");
    reveal_strlit("nothing_to_reset");
    reveal_strlit("no_credit");
    reveal_strlit("already_redeemed");
    assert("reset"@.len() == 5);
    assert("nothing_to_reset"@.len() == 16);
    assert("no_credit"@.len() == 9);
    assert("already_redeemed"@.len() == 16);
    assert("nothing_to_reset"@[0] == 'n');
    assert("already_redeemed"@[0] == 'a');
}

/// Between two redemptions of an account that nobody asked for pass as many seconds as there have
/// to: one burst of requests spends one credit.
pub proof fn unasked_redemptions_are_spaced(pool: PoolView, idx: int, at: u64, later: u64)
    requires
        pool.wf(),
        pool.reset_ready(idx, at),
        at <= later < at + AUTO_RETRY_SECONDS,
        later < u64::MAX,
    ensures
        !reserved(pool, idx, at).reset_ready(idx, later),
{
}

/// An account that answered that it has no credit is not asked to redeem one without being asked for.
pub proof fn no_credit_ends_unasked_redemptions(pool: PoolView, idx: int, at: u64, later: u64)
    requires
        pool.wf(),
        0 <= idx < pool.state.accounts.len(),
    ensures
        !redeemed(pool, idx, Code::NoCredit, at).reset_ready(idx, later),
{
}

/// What an outcome leaves as it was: windows, holds and every other account.
pub proof fn redemption_keeps_the_rest(pool: PoolView, idx: int, code: Code, at: u64, i: int)
    requires
        pool.wf(),
        0 <= idx < pool.state.accounts.len(),
        0 <= i < pool.state.accounts.len(),
    ensures
        ({
            let after = redeemed(pool, idx, code, at);
            &&& i != idx ==> after.state.accounts[i] == pool.state.accounts[i]
            &&& after.state.accounts[i].quotas == pool.state.accounts[i].quotas
            &&& after.state.accounts[i].hold_until == pool.state.accounts[i].hold_until
        }),
{
}

/// A redemption that reset the windows, now or before, is counted and dated; one for want of a credit
/// leaves none; one with nothing to reset changes nothing.
pub proof fn redemptions_are_counted(pool: PoolView, idx: int, code: Code, at: u64)
    requires
        0 <= idx < pool.state.accounts.len(),
        pool.state.accounts[idx].resets < u64::MAX,
    ensures
        ({
            let before = pool.state.accounts[idx];
            let after = redeemed(pool, idx, code, at).state.accounts[idx];
            &&& code == Code::Reset || code == Code::AlreadyRedeemed ==> after.resets
                == before.resets + 1 && after.last_reset == Some(at) && after.reset_credits
                == before.reset_credits
            &&& code == Code::NoCredit ==> after.reset_credits == Some(0i64) && after.resets
                == before.resets && after.last_reset == before.last_reset
            &&& code == Code::NothingToReset ==> after == before
        }),
        is_reset(code) <==> code == Code::Reset || code == Code::AlreadyRedeemed,
{
}

/// An unasked redemption keeps further ones back for five minutes.
pub proof fn unasked_redemptions_wait_five_minutes(pool: PoolView, idx: int, at: u64)
    requires
        0 <= idx < pool.state.accounts.len(),
        at + 300 <= u64::MAX,
    ensures
        ({
            let before = pool.state.accounts[idx];
            let after = reserved(pool, idx, at).state.accounts[idx];
            &&& before.reset_retry_at < at + 300 ==> after.reset_retry_at == at + 300
            &&& before.reset_retry_at >= at + 300 ==> after == before
        }),
{
}

/// An outcome is read from an object with a `code` and a `windows_reset`, or from a list of the two;
/// without a number of windows there are none.
pub proof fn outcomes_are_read(value: JsonView, name: Seq<char>, code: Code, count: i64)
    requires
        code_of(name) == Some(code),
    ensures
        value is Object && value.member("code"@) == Some(JsonView::Text(name)) && value.member(
            "windows_reset"@,
        ) is None ==> outcome_of(value) == Some(Outcome { code, windows_reset: 0 }),
        value is Object && value.member("code"@) == Some(JsonView::Text(name))
            && value.member_signed("windows_reset"@) == Some(count) ==> outcome_of(value) == Some(
            Outcome { code, windows_reset: count },
        ),
        value is Object && value.member("code"@) is None ==> outcome_of(value) is None,
        name == "reset"@ ==> code == Code::Reset,
        name == "nothing_to_reset"@ ==> code == Code::NothingToReset,
        name == "no_credit"@ ==> code == Code::NoCredit,
        name == "already_redeemed"@ ==> code == Code::AlreadyRedeemed,
{
    crate::json::members_are_read_as_what_they_are(value, "windows_reset"@);
    reveal_strlit("reset");
    reveal_strlit("nothing_to_reset");
    reveal_strlit("no_credit");
    reveal_strlit("already_redeemed");
    assert("reset"@.len() == 5 && "nothing_to_reset"@.len() == 16 && "no_credit"@.len() == 9
        && "already_redeemed"@.len() == 16);
    assert("nothing_to_reset"@[0] != "already_redeemed"@[0]);
}

/// A refusal is explained by the `message` of its `error`, or else by its `detail`, or else by its
/// own `message`.
pub proof fn refusals_are_explained(value: JsonView, error: JsonView, text: Seq<char>)
    ensures
        value.member("error"@) == Some(error) && error.member_text("message"@) == Some(text)
            ==> message_of(Some(value)) == text,
        value.member("error"@) is None && value.member_text("detail"@) == Some(text) ==> message_of(
            Some(value),
        ) == text,
        value.member("error"@) is None && value.member_text("detail"@) is None
            && value.member_text("message"@) == Some(text) ==> message_of(Some(value)) == text,
        value.member("error"@) is None && value.member_text("detail"@) is None
            && value.member_text("message"@) is None ==> message_of(Some(value))
            == "no error message"@,
        message_of(None) == "no error message"@,
{
    crate::json::members_are_read_as_what_they_are(error, "message"@);
}

/// What is said of a redemption that cannot be asked for.
pub proof fn redemption_errors_are_worded()
    ensures
        error_text(ResetError::Account) == "unknown account"@,
        error_text(ResetError::Endpoint) == "this account has no usage-limit reset endpoint"@,
        error_text(ResetError::Credit) == "credit id must not be empty"@,
{
}

/// How the outcome of a redemption is told.
pub proof fn outcomes_are_worded(account: Seq<char>, windows: int)
    ensures
        outcome_line(account, "reset"@, windows) == account + (": reset "@
            + crate::text::signed_text(windows) + " window(s)"@),
        outcome_line(account, "already_redeemed"@, windows) == account
            + ": this request already reset the windows"@,
        outcome_line(account, "nothing_to_reset"@, windows) == account
            + ": no window needed a reset; no credit was used"@,
        outcome_line(account, "no_credit"@, windows) == account
            + ": no reset credit is available"@,
{
    reveal_strlit("reset");
    reveal_strlit("nothing_to_reset");
    reveal_strlit("no_credit");
    reveal_strlit("already_redeemed");
    assert("reset"@.len() == 5 && "nothing_to_reset"@.len() == 16 && "no_credit"@.len() == 9
        && "already_redeemed"@.len() == 16);
    assert("nothing_to_reset"@[0] != "already_redeemed"@[0]);
}

/// What is told of an outcome: its account, its code, how many windows it reset, and how many credits
/// are left where that is known.
pub proof fn outcomes_are_told_by_their_members(
    outcome: JsonView,
    account: Seq<char>,
    code: Seq<char>,
    now: u64,
)
    requires
        outcome.member_text("account"@) == Some(account),
        outcome.member_text("code"@) == Some(code),
        outcome.member("quotas"@) is None,
    ensures
        ({
            let windows = if outcome.member_signed("windows_reset"@) is Some {
                outcome.member_signed("windows_reset"@)->Some_0 as int
            } else {
                0
            };
            let credits = outcome.member_signed("reset_credits"@);
            &&& credits is None ==> outcome_text(outcome, now) == outcome_line(
                account,
                code,
                windows,
            ) + "\n"@
            &&& credits is Some ==> outcome_text(outcome, now) == outcome_line(
                account,
                code,
                windows,
            ) + ("; "@ + crate::text::signed_text(credits->Some_0 as int)
                + " reset credit(s) left"@) + "\n"@
        }),
{
    reveal_strlit("");
    let windows = if outcome.member_signed("windows_reset"@) is Some {
        outcome.member_signed("windows_reset"@)->Some_0 as int
    } else {
        0
    };
    let line = outcome_line(account, code, windows);
    assert(line + ""@ =~= line);
    assert(outcome_text(outcome, now) =~= outcome_text(outcome, now) + Seq::<char>::empty());
}

/// A credit is shown by its identifier, its state, its title and when it expires; what is missing or
/// blank is shown as unknown, as a full reset, or as never.
pub proof fn credits_are_shown(credit: JsonView, text: Seq<char>)
    requires
        crate::text::trimmed(text).len() > 0,
    ensures
        credit_cells(credit).len() == 4,
        credit.member_text("id"@) == Some(text) ==> credit_cells(credit)[0] == text,
        credit.member_text("status"@) == Some(text) ==> credit_cells(credit)[1] == text,
        credit.member_text("title"@) == Some(text) ==> credit_cells(credit)[2] == text,
        credit.member_text("expires_at"@) == Some(text) ==> credit_cells(credit)[3] == text,
        credit.member_text("id"@) is None ==> credit_cells(credit)[0] == "?"@,
        credit.member_text("status"@) is None ==> credit_cells(credit)[1] == "?"@,
        credit.member_text("title"@) is None ==> credit_cells(credit)[2] == "Full reset"@,
        credit.member_text("expires_at"@) is None ==> credit_cells(credit)[3] == "never"@,
        credit.member_text("title"@) == Some(Seq::<char>::empty()) ==> credit_cells(credit)[2]
            == "Full reset"@,
        credit_head() == seq!["ID"@, "STATUS"@, "TITLE"@, "EXPIRES"@],
        MAX_RESPONSE == 256 * 1024,
{
    assert(crate::text::trimmed(Seq::empty()).len() == 0);
}

/// Of the windows the two of Codex are told: how much of each is used, and when it resets where that
/// is ahead.
pub proof fn outcome_windows_are_told(id: Seq<char>, window: JsonView, now: u64)
    ensures
        id != "codex-primary"@ && id != "codex-secondary"@ ==> outcome_window(id, window, now).len()
            == 0,
        ({
            let share = if window.member("used_percent"@) is Some
                && window.member("used_percent"@)->Some_0.level() is Some {
                window.member("used_percent"@)->Some_0.level()->Some_0
            } else {
                Level { bits: 0 }
            };
            let line = "  "@ + id + " "@ + crate::percent::whole_text(share) + "% used"@;
            let reset = window.member_unsigned("reset_at"@);
            let own = id == "codex-primary"@ || id == "codex-secondary"@;
            &&& own && reset is Some && reset->Some_0 > now ==> outcome_window(id, window, now)
                == line + (", resets "@ + crate::status::countdown_text(reset->Some_0, now))
                + "\n"@
            &&& own && (reset is None || reset->Some_0 <= now) ==> outcome_window(id, window, now)
                == line + "\n"@
        }),
{
    reveal_strlit("");
    let share = if window.member("used_percent"@) is Some
        && window.member("used_percent"@)->Some_0.level() is Some {
        window.member("used_percent"@)->Some_0.level()->Some_0
    } else {
        Level { bits: 0 }
    };
    let line = "  "@ + id + " "@ + crate::percent::whole_text(share) + "% used"@;
    assert(line + ""@ =~= line);
}

} // verus!
