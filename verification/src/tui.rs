//! What the terminal display shows, and what its keys do.
use crate::percent::fixed;
use crate::percent::whole;
use crate::pool::AccountState;
use crate::pool::AccountStateView;
use crate::pool::Pool;
use crate::pool::RequestLog;
use crate::pool::RequestLogView;
use crate::quota::Quotas;
use crate::quota::Window;
use crate::status::state_label;
use crate::text::concat;
use crate::text::concat3;
use crate::text::decimal;
use crate::text::join;
use crate::text::owned;
use vstd::prelude::*;
use vstd::string::*;

verus! {

/// How many answers are shown.
pub const SHOWN: usize = 5;

/// What stands above the accounts.
pub fn banner() -> (text: &'static str)
    ensures
        text@
            == "TeamCodex | account pool\nq: stop server   j/k: select   space: enable/disable"@,
{
    "TeamCodex | account pool\nq: stop server   j/k: select   space: enable/disable"
}

/// The head of the accounts.
pub open spec fn head_cells() -> Seq<Seq<char>> {
    seq!["Account"@, "State"@, "Active"@, "Calls"@, "Tokens in/out"@, "Est. USD"@, "Quota"@]
}

/// The head of the accounts.
pub fn head() -> (cells: Vec<String>)
    ensures
        crate::text::views(cells@) == head_cells(),
{
    let mut cells: Vec<String> = Vec::new();
    cells.push(owned("Account"));
    cells.push(owned("State"));
    cells.push(owned("Active"));
    cells.push(owned("Calls"));
    cells.push(owned("Tokens in/out"));
    cells.push(owned("Est. USD"));
    cells.push(owned("Quota"));
    assert(crate::text::views(cells@) =~= head_cells());
    cells
}

/// Windows and how much of each is used.
pub open spec fn shares(rows: Seq<(Seq<char>, Window)>) -> Seq<Seq<char>> {
    rows.map_values(
        |row: (Seq<char>, Window)|
            row.0 + " "@ + crate::percent::whole_text(row.1.used_percent) + "%"@,
    )
}

/// What is shown of the windows of an account.
pub open spec fn windows_text(rows: Seq<(Seq<char>, Window)>) -> Seq<char> {
    if rows.len() == 0 {
        "unknown"@
    } else {
        crate::text::joined(shares(rows), " | "@)
    }
}

fn windows(quotas: &Quotas) -> (text: String)
    requires
        quotas.wf(),
    ensures
        text@ == windows_text(crate::table::rows_of(quotas@)),
{
    proof {
        quotas.rows_are_unique();
    }
    if quotas.len() == 0 {
        return owned("unknown");
    }
    let ghost rows = quotas.entries();
    let mut parts: Vec<String> = Vec::new();
    let mut i: usize = 0;
    while i < quotas.len()
        invariant
            quotas.wf(),
            rows == quotas.entries(),
            i <= rows.len(),
            parts@.len() == i,
            forall|k: int| 0 <= k < i ==> #[trigger] parts@[k]@ == shares(rows)[k],
        decreases rows.len() - i,
    {
        let start = concat3(quotas.key(i), " ", whole(quotas.value(i).used_percent).as_str());
        parts.push(concat(start.as_str(), "%"));
        i = i + 1;
    }
    assert(crate::text::views(parts@) =~= shares(rows));
    join(&parts, " | ")
}

/// The line of an account. A cost that leaves some request out is marked.
pub open spec fn cells(account: AccountStateView, at: u64) -> Seq<Seq<char>> {
    seq![
        account.name,
        crate::status::label(
            account.disabled,
            account.hold_until,
            account.quotas,
            account.threshold_percent,
            at,
        ),
        crate::text::decimal_text(account.in_flight as nat),
        crate::text::decimal_text(account.requests as nat),
        crate::text::decimal_text(account.input_tokens as nat) + "/"@ + crate::text::decimal_text(
            account.output_tokens as nat,
        ),
        "$"@ + crate::percent::fixed_text(account.estimated_cost_usd) + if account.unpriced_requests > 0 {
            "+?"@
        } else {
            ""@
        },
        windows_text(crate::table::rows_of(account.quotas)),
    ]
}

/// The line of an account.
pub fn row(account: &AccountState, at: u64) -> (line: Vec<String>)
    requires
        account.wf(),
    ensures
        crate::text::views(line@) == cells(account@, at),
{
    let mut line: Vec<String> = Vec::new();
    line.push(account.name.clone());
    line.push(
        owned(
            state_label(
                account.disabled,
                account.hold_until,
                &account.quotas,
                account.threshold_percent,
                at,
            ),
        ),
    );
    line.push(decimal(account.in_flight));
    line.push(decimal(account.requests));
    line.push(
        concat3(
            decimal(account.input_tokens).as_str(),
            "/",
            decimal(account.output_tokens).as_str(),
        ),
    );
    let mark = if account.unpriced_requests > 0 {
        "+?"
    } else {
        ""
    };
    line.push(concat3("$", fixed(account.estimated_cost_usd).as_str(), mark));
    line.push(windows(&account.quotas));
    assert(crate::text::views(line@) =~= cells(account@, at));
    line
}

/// The line of an answer.
pub open spec fn log_line(log: RequestLogView) -> Seq<char> {
    log.account + "  "@ + crate::text::decimal_text(log.status as nat) + "  "@ + log.outcome
}

/// The newest answers, the newest first.
pub open spec fn newest(recent: Seq<RequestLogView>) -> Seq<Seq<char>> {
    let count = if recent.len() < SHOWN {
        recent.len()
    } else {
        SHOWN as nat
    };
    Seq::new(count, |i: int| log_line(recent[recent.len() - 1 - i]))
}

/// The newest answers, the newest first, one below the other.
pub fn recent(logs: &Vec<RequestLog>) -> (text: String)
    ensures
        text@ == crate::text::joined(newest(crate::pool::log_views(logs@)), "\n"@),
{
    let ghost wanted = newest(crate::pool::log_views(logs@));
    let mut lines: Vec<String> = Vec::new();
    while lines.len() < SHOWN && lines.len() < logs.len()
        invariant
            wanted == newest(crate::pool::log_views(logs@)),
            lines@.len() <= wanted.len(),
            forall|k: int| 0 <= k < lines@.len() ==> #[trigger] lines@[k]@ == wanted[k],
        decreases logs@.len() - lines@.len(),
    {
        let log = &logs[logs.len() - 1 - lines.len()];
        let start = concat3(log.account.as_str(), "  ", decimal(log.status as u64).as_str());
        lines.push(concat3(start.as_str(), "  ", log.outcome.as_str()));
    }
    assert(crate::text::views(lines@) =~= wanted);
    join(&lines, "\n")
}

/// A key of the display.
#[derive(Clone, Copy, Debug, PartialEq, Eq, Structural)]
pub enum Key {
    Quit,
    Down,
    Up,
    Toggle,
    Other,
}

/// What a key does.
#[derive(Clone, Copy, Debug, PartialEq, Eq, Structural)]
pub enum Press {
    /// Stop the server.
    Stop,
    /// Select this account.
    Select(usize),
    /// Enable or disable this account.
    Toggle(usize),
    Nothing,
}

/// The key of a letter.
pub fn key(letter: char) -> (found: Key)
    ensures
        found == if letter == 'q' {
            Key::Quit
        } else if letter == 'j' {
            Key::Down
        } else if letter == 'k' {
            Key::Up
        } else if letter == ' ' {
            Key::Toggle
        } else {
            Key::Other
        },
{
    if letter == 'q' {
        Key::Quit
    } else if letter == 'j' {
        Key::Down
    } else if letter == 'k' {
        Key::Up
    } else if letter == ' ' {
        Key::Toggle
    } else {
        Key::Other
    }
}

/// The account that is selected, of so many.
pub open spec fn selection(selected: usize, accounts: usize) -> usize {
    if accounts == 0 {
        0
    } else if selected >= accounts {
        (accounts - 1) as usize
    } else {
        selected
    }
}

/// The account that is selected, of so many.
pub fn select(selected: usize, accounts: usize) -> (found: usize)
    ensures
        found == selection(selected, accounts),
{
    if accounts == 0 {
        0
    } else if selected >= accounts {
        accounts - 1
    } else {
        selected
    }
}

/// What a key does. Going down from the last account leads to the first.
pub fn press(key: Key, selected: usize, accounts: usize) -> (press: Press)
    requires
        accounts > 0 ==> selected < accounts,
    ensures
        press == match key {
            Key::Quit => Press::Stop,
            Key::Down => if selected + 1 >= accounts {
                Press::Select(0)
            } else {
                Press::Select((selected + 1) as usize)
            },
            Key::Up => if selected == 0 {
                Press::Select(0)
            } else {
                Press::Select((selected - 1) as usize)
            },
            Key::Toggle => if selected < accounts {
                Press::Toggle(selected)
            } else {
                Press::Nothing
            },
            Key::Other => Press::Nothing,
        },
{
    match key {
        Key::Quit => Press::Stop,
        Key::Down => if accounts == 0 || selected >= accounts - 1 {
            Press::Select(0)
        } else {
            Press::Select(selected + 1)
        },
        Key::Up => if selected == 0 {
            Press::Select(0)
        } else {
            Press::Select(selected - 1)
        },
        Key::Toggle => if selected < accounts {
            Press::Toggle(selected)
        } else {
            Press::Nothing
        },
        Key::Other => Press::Nothing,
    }
}

impl Pool {
    /// Enables an account that is disabled, and disables one that is not. Of several accounts of one
    /// name the first is meant.
    pub fn toggle(&mut self, idx: usize)
        requires
            old(self).wf(),
            idx < old(self)@.state.accounts.len(),
        ensures
            final(self).wf(),
            ({
                let account = old(self)@.state.accounts[idx as int];
                match crate::pool::first_named(old(self)@.state.accounts, account.name) {
                    Some(first) => final(self)@ == old(self)@.with_account(
                        first as int,
                        AccountStateView {
                            disabled: !account.disabled,
                            ..old(self)@.state.accounts[first as int]
                        },
                    ),
                    None => final(self)@ == old(self)@,
                }
            }),
    {
        assert(self@.state.accounts[idx as int] == self.state.accounts@[idx as int]@);
        let name = self.state.accounts[idx].name.clone();
        let disabled = self.state.accounts[idx].disabled;
        let _ = self.set_enabled(name.as_str(), disabled);
    }
}

/// A key keeps the selection on an account, as long as there is one.
pub proof fn selection_stays_on_an_account(selected: usize, accounts: usize)
    requires
        accounts > 0,
    ensures
        selection(selected, accounts) < accounts,
        selected < accounts ==> selection(selected, accounts) == selected,
{
}

/// The five newest outcomes are shown, the newest first.
pub proof fn newest_outcomes_come_first(recent: Seq<RequestLogView>, i: int)
    requires
        0 <= i < recent.len(),
        i < 5,
    ensures
        newest(recent)[i] == recent[recent.len() - 1 - i].account + "  "@
            + crate::text::decimal_text(recent[recent.len() - 1 - i].status as nat) + "  "@
            + recent[recent.len() - 1 - i].outcome,
        newest(recent).len() == if recent.len() < 5 {
            recent.len()
        } else {
            5
        },
{
}

/// A row shows of an account its name, its state, its open requests, its requests, its tokens in and
/// out, its cost, which is marked where part of it is not known, and its windows.
pub proof fn rows_show_the_account(account: AccountStateView, at: u64)
    ensures
        ({
            let row = cells(account, at);
            &&& row.len() == head_cells().len()
            &&& row[0] == account.name
            &&& account.disabled ==> row[1] == "disabled"@
            &&& row[2] == crate::text::decimal_text(account.in_flight as nat)
            &&& row[3] == crate::text::decimal_text(account.requests as nat)
            &&& row[4] == crate::text::decimal_text(account.input_tokens as nat) + "/"@
                + crate::text::decimal_text(account.output_tokens as nat)
            &&& account.unpriced_requests > 0 ==> row[5] == "$"@ + crate::percent::fixed_text(
                account.estimated_cost_usd,
            ) + "+?"@
            &&& account.unpriced_requests == 0 ==> row[5] == "$"@ + crate::percent::fixed_text(
                account.estimated_cost_usd,
            ) + ""@
        }),
{
}

/// The windows of an account are listed with the share that is used of each.
pub proof fn windows_are_listed(rows: Seq<(Seq<char>, Window)>, row: (Seq<char>, Window))
    ensures
        ({
            let text = row.0 + " "@ + crate::percent::whole_text(row.1.used_percent) + "%"@;
            &&& rows.len() == 0 ==> windows_text(rows) == "unknown"@
            &&& windows_text(seq![row]) == text
            &&& rows.len() > 0 ==> windows_text(rows.push(row)) == windows_text(rows) + " | "@
                + text
        }),
        head_cells() == seq![
            "Account"@,
            "State"@,
            "Active"@,
            "Calls"@,
            "Tokens in/out"@,
            "Est. USD"@,
            "Quota"@,
        ],
        selection(0, 0) == 0,
{
    let text = row.0 + " "@ + crate::percent::whole_text(row.1.used_percent) + "%"@;
    assert(shares(seq![row]) =~= seq![text]);
    assert(shares(rows.push(row)) =~= shares(rows).push(text));
    crate::text::parts_are_joined_in_order(shares(rows), text, " | "@);
}

} // verus!
