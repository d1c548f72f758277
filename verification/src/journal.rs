//! The routing journal: one JSON record per line, appended before a binding is used.
//!
//! A process can stop during the last append, so what follows the last newline is not read. Every
//! complete line must be a record.
use crate::affinity::Bindings;
use crate::affinity::Entry;
use crate::affinity::EntryView;
use crate::affinity::Kind;
use crate::affinity::Record;
use crate::affinity::RecordView;
use crate::affinity::Routing;
use crate::affinity::RoutingView;
use crate::affinity::COMPACT_BYTES;
use crate::affinity::JOURNAL_LIMIT;
use crate::affinity::LIMIT;
use crate::affinity::TTL;
use crate::json::Json;
use crate::json::JsonView;
use crate::table::Table;
use crate::text::owned;
use crate::text::same;
use serde::ser::SerializeMap;
use serde::ser::Serializer;
use vstd::prelude::*;
use vstd::slice::slice_subrange;

verus! {

/// The byte that ends a record.
pub const NEWLINE: u8 = 10;

/// The byte between two members.
pub const COMMA: u8 = 44;

/// The byte that ends an object.
pub const CLOSE_OBJECT: u8 = 125;

/// The byte that ends a list.
pub const CLOSE_LIST: u8 = 93;

/// The first position of a newline, or the length where there is none.
pub open spec fn line_length(bytes: Seq<u8>) -> nat
    decreases bytes.len(),
{
    if bytes.len() == 0 || bytes[0] == NEWLINE {
        0
    } else {
        1 + line_length(bytes.drop_first())
    }
}

/// The lines that end in a newline, without it.
pub open spec fn complete_lines(bytes: Seq<u8>) -> Seq<Seq<u8>>
    decreases bytes.len(),
{
    let length = line_length(bytes);
    if length >= bytes.len() {
        Seq::empty()
    } else {
        seq![bytes.take(length as int)] + complete_lines(bytes.skip(length as int + 1))
    }
}

/// The number of bytes up to the last newline and with it.
pub open spec fn complete_length(bytes: Seq<u8>) -> nat
    decreases bytes.len(),
{
    if bytes.len() == 0 || bytes.last() == NEWLINE {
        bytes.len()
    } else {
        complete_length(bytes.drop_last())
    }
}

/// Why a journal is not read.
#[derive(Clone, Copy, Debug, PartialEq, Eq, Structural)]
pub enum JournalError {
    /// The journal is too large.
    TooLarge,
    /// A complete line is not a record.
    Invalid,
    /// A record holds a key or an account that is not a digest.
    Binding,
}

/// What is told of an error.
pub open spec fn error_text(error: JournalError) -> Seq<char> {
    match error {
        JournalError::TooLarge => "routing journal exceeds size limit"@,
        JournalError::Invalid => "invalid routing journal"@,
        JournalError::Binding => "invalid routing binding"@,
    }
}

impl JournalError {
    /// What is told of the error.
    pub fn message(self) -> (text: &'static str)
        ensures
            text@ == error_text(self),
    {
        match self {
            JournalError::TooLarge => "routing journal exceeds size limit",
            JournalError::Invalid => "invalid routing journal",
            JournalError::Binding => "invalid routing binding",
        }
    }
}

/// A comma at which these bytes would complete the JSON value before it: it separates the members of
/// the object that the first of them closes.
pub open spec fn separates(line: Seq<u8>, closing: Seq<u8>, i: int) -> bool {
    line[i] == COMMA && crate::json::json_value(line.take(i) + closing) is Some
}

/// How many of the first bytes are such commas.
pub open spec fn separators(line: Seq<u8>, closing: Seq<u8>, count: int) -> nat
    decreases count,
{
    if count <= 0 {
        0
    } else if separates(line, closing, count - 1) {
        separators(line, closing, count - 1) + 1
    } else {
        separators(line, closing, count - 1)
    }
}

/// The kind that a JSON value is: its name, alone or with nothing under it.
pub open spec fn kind_from(value: JsonView) -> Option<Kind> {
    match value.variant() {
        Some(name) => if name == crate::affinity::kind_name(Kind::Session) {
            Some(Kind::Session)
        } else if name == crate::affinity::kind_name(Kind::Response) {
            Some(Kind::Response)
        } else {
            None
        },
        None => None,
    }
}

/// The kind, the key, the account and the time in a JSON value: the four members of an object, or
/// the four items of a list.
pub open spec fn record_parts(value: JsonView) -> Option<(JsonView, JsonView, JsonView, JsonView)> {
    match value {
        JsonView::Object(members) => match (
            value.member("kind"@),
            value.member("key"@),
            value.member("account"@),
            value.member("at"@),
        ) {
            (Some(kind), Some(key), Some(account), Some(at)) => if members.len() == 4 {
                Some((kind, key, account, at))
            } else {
                None
            },
            _ => None,
        },
        JsonView::List(items) => if items.len() == 4 {
            Some((items[0], items[1], items[2], items[3]))
        } else {
            None
        },
        _ => None,
    }
}

/// A line names a member twice, in the record that it holds or in the kind of that record.
pub open spec fn repeats(line: Seq<u8>, value: JsonView, kind: JsonView) -> bool {
    let count = line.len() as int;
    ||| value is Object && separators(line, seq![CLOSE_OBJECT], count) != 3
    ||| kind is Object && separators(
        line,
        seq![
            CLOSE_OBJECT,
            if value is Object {
                CLOSE_OBJECT
            } else {
                CLOSE_LIST
            },
        ],
        count,
    ) != 0
}

/// The record that a line holds.
pub open spec fn record_of(line: Seq<u8>) -> Option<RecordView> {
    match crate::json::json_value(line) {
        Some(value) => match record_parts(value) {
            Some((kind, key, account, at)) => match (
                kind_from(kind),
                key.text(),
                account.text(),
                at.unsigned(),
            ) {
                (Some(name), Some(key), Some(account), Some(at)) => if repeats(line, value, kind) {
                    None
                } else {
                    Some(RecordView { kind: name, key, account, at })
                },
                _ => None,
            },
            None => None,
        },
        None => None,
    }
}

/// Routing with one line of the journal taken in. Empty lines and expired records are passed over.
pub open spec fn replay_line(routing: RoutingView, line: Seq<u8>, now: u64) -> Result<
    RoutingView,
    JournalError,
> {
    if line.len() == 0 {
        Ok(routing)
    } else {
        match record_of(line) {
            None => Err(JournalError::Invalid),
            Some(record) => if !crate::affinity::valid_binding(record.key)
                || !crate::affinity::valid_binding(record.account) {
                Err(JournalError::Binding)
            } else if record.at <= now && now < crate::affinity::later(record.at, TTL) {
                Ok(routing.insert(record, now))
            } else {
                Ok(routing)
            },
        }
    }
}

/// Routing with lines of the journal taken in, one after the other.
pub open spec fn replay_lines(routing: RoutingView, lines: Seq<Seq<u8>>, now: u64) -> Result<
    RoutingView,
    JournalError,
>
    decreases lines.len(),
{
    if lines.len() == 0 {
        Ok(routing)
    } else {
        match replay_lines(routing, lines.drop_last(), now) {
            Ok(before) => replay_line(before, lines.last(), now),
            Err(error) => Err(error),
        }
    }
}

/// The routing that a journal holds.
pub open spec fn replayed(bytes: Seq<u8>, now: u64) -> Result<RoutingView, JournalError> {
    if bytes.len() > JOURNAL_LIMIT {
        Err(JournalError::TooLarge)
    } else {
        replay_lines(crate::affinity::empty_routing(true), complete_lines(bytes), now)
    }
}

/// The number of bytes up to the last newline and with it: what is left of a journal once an
/// incomplete last record is cut off.
pub fn complete_len(bytes: &[u8]) -> (length: usize)
    ensures
        length == complete_length(bytes@),
        length <= bytes@.len(),
{
    let mut end: usize = bytes.len();
    assert(bytes@.take(end as int) =~= bytes@);
    while end > 0 && bytes[end - 1] != NEWLINE
        invariant
            end <= bytes@.len(),
            complete_length(bytes@) == complete_length(bytes@.take(end as int)),
        decreases end,
    {
        assert(bytes@.take(end as int).drop_last() =~= bytes@.take(end - 1));
        end = end - 1;
    }
    end
}

/// Whether a journal of this size is not read.
pub fn is_too_large(length: u64) -> (yes: bool)
    ensures
        yes == (length > JOURNAL_LIMIT),
{
    length > JOURNAL_LIMIT
}

/// Whether a journal of this size is rewritten before the next record.
pub fn needs_compaction(length: u64) -> (yes: bool)
    ensures
        yes == (length >= COMPACT_BYTES),
{
    length >= COMPACT_BYTES
}

/// The bytes are the JSON text of an object with three texts and a number, and no other member; each
/// is named once.
pub open spec fn reads_back(
    bytes: Seq<u8>,
    first: (Seq<char>, Seq<char>),
    second: (Seq<char>, Seq<char>),
    third: (Seq<char>, Seq<char>),
    number: (Seq<char>, u64),
) -> bool {
    &&& crate::json::json_value(bytes) matches Some(value) && {
        &&& value matches JsonView::Object(members) && members.len() == 4
        &&& value.member(first.0) == Some(JsonView::Text(first.1))
        &&& value.member(second.0) == Some(JsonView::Text(second.1))
        &&& value.member(third.0) == Some(JsonView::Text(third.1))
        &&& value.member_unsigned(number.0) == Some(number.1)
    }
    &&& separators(bytes, seq![CLOSE_OBJECT], bytes.len() as int) == 3
}

/// The JSON text of an object with three texts and a number, in this order.
///
/// Calls `serde_json`'s serializer for a map with four entries, which does not fail on a vector.
/// What is claimed: `serde_json::from_slice` reads the text back as an object with these four
/// members, where their names differ; the commas before which it could be closed are the three
/// between the members, because one inside a string leaves the string open; and the compact form
/// holds no newline, because in strings it is escaped.
#[verifier::external_body]
fn object_text(first: (&str, &str), second: (&str, &str), third: (&str, &str), number: (&str, u64))
    -> (bytes: Vec<u8>)
    requires
        first.0@ != second.0@,
        first.0@ != third.0@,
        first.0@ != number.0@,
        second.0@ != third.0@,
        second.0@ != number.0@,
        third.0@ != number.0@,
    ensures
        reads_back(
            bytes@,
            (first.0@, first.1@),
            (second.0@, second.1@),
            (third.0@, third.1@),
            (number.0@, number.1),
        ),
        !bytes@.contains(NEWLINE),
        bytes@.len() > 0,
{
    let mut bytes: Vec<u8> = Vec::new();
    let mut serializer = serde_json::Serializer::new(&mut bytes);
    if let Ok(mut map) = serializer.serialize_map(Some(4)) {
        let _ = map.serialize_entry(first.0, first.1);
        let _ = map.serialize_entry(second.0, second.1);
        let _ = map.serialize_entry(third.0, third.1);
        let _ = map.serialize_entry(number.0, &number.1);
        let _ = map.end();
    }
    bytes
}

proof fn lemma_names_differ()
    ensures
        "session"@ != "response"@,
        "kind"@ != "key"@,
        "kind"@ != "account"@,
        "kind"@ != "at"@,
        "key"@ != "account"@,
        "key"@ != "at"@,
        "account"@ != "at"@,
{
    reveal_strlit("session");
    reveal_strlit("response");
    reveal_strlit("kind");
    reveal_strlit("key");
    reveal_strlit("account");
    reveal_strlit("at");
    assert("session"@.len() != "response"@.len());
    assert("kind"@.len() == 4 && "key"@.len() == 3 && "account"@.len() == 7 && "at"@.len() == 2);
}

/// How many commas of a line could be followed by these bytes.
fn count_separators(line: &[u8], closing: &[u8]) -> (count: usize)
    ensures
        count == separators(line@, closing@, line@.len() as int),
{
    let mut count: usize = 0;
    let mut i: usize = 0;
    while i < line.len()
        invariant
            i <= line@.len(),
            count <= i,
            count == separators(line@, closing@, i as int),
        decreases line@.len() - i,
    {
        if line[i] == COMMA {
            let mut text: Vec<u8> = Vec::new();
            text.extend_from_slice(slice_subrange(line, 0, i));
            text.extend_from_slice(closing);
            assert(text@ =~= line@.take(i as int) + closing@);
            if Json::parse(text.as_slice()).is_some() {
                count = count + 1;
            }
        }
        i = i + 1;
    }
    count
}

fn repeats_member(line: &[u8], value: &Json, kind: &Json) -> (yes: bool)
    ensures
        yes == repeats(line@, value@, kind@),
{
    let object = value.is_object();
    let mut closing: Vec<u8> = Vec::new();
    closing.push(CLOSE_OBJECT);
    assert(closing@ =~= seq![CLOSE_OBJECT]);
    if object && count_separators(line, closing.as_slice()) != 3 {
        return true;
    }
    if !kind.is_object() {
        return false;
    }
    if object {
        closing.push(CLOSE_OBJECT);
        assert(closing@ =~= seq![CLOSE_OBJECT, CLOSE_OBJECT]);
    } else {
        closing.push(CLOSE_LIST);
        assert(closing@ =~= seq![CLOSE_OBJECT, CLOSE_LIST]);
    }
    count_separators(line, closing.as_slice()) != 0
}

/// The kind, the key, the account and the time in a JSON value.
fn parts(value: &Json) -> (found: Option<(&Json, &Json, &Json, &Json)>)
    ensures
        match found {
            Some((kind, key, account, at)) => record_parts(value@) == Some(
                (kind@, key@, account@, at@),
            ),
            None => record_parts(value@) is None,
        },
{
    match value.as_array() {
        Some(items) => if items.len() == 4 {
            Some((&items[0], &items[1], &items[2], &items[3]))
        } else {
            None
        },
        None => match value.as_object() {
            Some(members) => match (
                value.get("kind"),
                value.get("key"),
                value.get("account"),
                value.get("at"),
            ) {
                (Some(kind), Some(key), Some(account), Some(at)) => if members.len() == 4 {
                    Some((kind, key, account, at))
                } else {
                    None
                },
                _ => None,
            },
            None => None,
        },
    }
}

fn kind_in(value: &Json) -> (kind: Option<Kind>)
    ensures
        kind == kind_from(value@),
{
    match value.as_variant() {
        Some(name) => if same(name, Kind::Session.name()) {
            Some(Kind::Session)
        } else if same(name, Kind::Response.name()) {
            Some(Kind::Response)
        } else {
            None
        },
        None => None,
    }
}

/// A line holds this record: it ends in its only newline, and reads as the record.
pub open spec fn is_line_of(line: Seq<u8>, record: RecordView) -> bool {
    &&& line.len() > 1
    &&& line.last() == NEWLINE
    &&& !line.drop_last().contains(NEWLINE)
    &&& record_of(line.drop_last()) == Some(record)
}

impl Record {
    /// The line of the journal that holds this record.
    pub fn line(&self) -> (line: Vec<u8>)
        ensures
            is_line_of(line@, self@),
    {
        line_of(self.kind, self.key.as_str(), self.account.as_str(), self.at)
    }

    /// The record that a line holds, given without its newline.
    pub fn read(line: &[u8]) -> (record: Option<Record>)
        ensures
            record is Some <==> record_of(line@) is Some,
            record matches Some(found) ==> record_of(line@) == Some(found@),
    {
        let value = match Json::parse(line) {
            Some(value) => value,
            None => return None,
        };
        let (kind, key, account, at) = match parts(&value) {
            Some(found) => found,
            None => return None,
        };
        match (kind_in(kind), key.as_str(), account.as_str(), at.as_u64()) {
            (Some(name), Some(key), Some(account), Some(at)) => {
                if repeats_member(line, &value, kind) {
                    return None;
                }
                Some(Record { kind: name, key: owned(key), account: owned(account), at })
            },
            _ => None,
        }
    }
}

fn line_of(kind: Kind, key: &str, account: &str, at: u64) -> (line: Vec<u8>)
    ensures
        is_line_of(line@, (RecordView { kind, key: key@, account: account@, at })),
{
    proof {
        lemma_names_differ();
    }
    let mut line = object_text(("kind", kind.name()), ("key", key), ("account", account), ("at", at));
    let ghost body = line@;
    line.push(NEWLINE);
    assert(line@.drop_last() =~= body);
    line
}

proof fn lemma_line_length(bytes: Seq<u8>)
    ensures
        line_length(bytes) <= bytes.len(),
        line_length(bytes) < bytes.len() ==> bytes[line_length(bytes) as int] == NEWLINE,
        forall|i: int| 0 <= i < line_length(bytes) ==> #[trigger] bytes[i] != NEWLINE,
    decreases bytes.len(),
{
    if bytes.len() > 0 && bytes[0] != NEWLINE {
        let rest = bytes.drop_first();
        lemma_line_length(rest);
        assert forall|i: int| 0 <= i < line_length(bytes) implies #[trigger] bytes[i]
            != NEWLINE by {
            if i > 0 {
                assert(rest[i - 1] == bytes[i]);
            }
        }
    }
}

proof fn lemma_line_length_is(bytes: Seq<u8>, n: int)
    requires
        0 <= n <= bytes.len(),
        n < bytes.len() ==> bytes[n] == NEWLINE,
        forall|i: int| 0 <= i < n ==> #[trigger] bytes[i] != NEWLINE,
    ensures
        line_length(bytes) == n,
{
    lemma_line_length(bytes);
    let m = line_length(bytes) as int;
    if m < n {
        assert(bytes[m] != NEWLINE);
    } else if n < m {
        assert(bytes[n] != NEWLINE);
    }
}

impl Routing {
    /// Reads the routing that a journal holds, at a given time.
    pub fn replay(bytes: &[u8], at: u64) -> (result: Result<Routing, JournalError>)
        ensures
            match result {
                Ok(routing) => routing.wf() && routing@.wf() && replayed(bytes@, at) == Ok::<
                    RoutingView,
                    JournalError,
                >(routing@),
                Err(error) => replayed(bytes@, at) == Err::<RoutingView, JournalError>(error),
            },
    {
        if bytes.len() as u64 > JOURNAL_LIMIT {
            return Err(JournalError::TooLarge);
        }
        let mut routing = Routing::new(true);
        let ghost start = routing@;
        let ghost all = complete_lines(bytes@);
        let ghost mut done: Seq<Seq<u8>> = Seq::empty();
        let mut from: usize = 0;
        let mut to: usize = 0;
        assert(bytes@.skip(0) =~= bytes@);
        assert(done + all =~= all);
        while to < bytes.len()
            invariant
                from <= to <= bytes@.len(),
                bytes@.len() <= JOURNAL_LIMIT,
                start == crate::affinity::empty_routing(true),
                all == complete_lines(bytes@),
                all == done + complete_lines(bytes@.skip(from as int)),
                forall|i: int| from <= i < to ==> #[trigger] bytes@[i] != NEWLINE,
                routing.wf(),
                routing@.wf(),
                replay_lines(start, done, at) == Ok::<RoutingView, JournalError>(routing@),
            decreases bytes@.len() - to,
        {
            if bytes[to] != NEWLINE {
                to = to + 1;
                continue ;
            }
            let ghost rest = bytes@.skip(from as int);
            let line = slice_subrange(bytes, from, to);
            proof {
                assert forall|i: int| 0 <= i < to - from implies #[trigger] rest[i] != NEWLINE by {
                    assert(rest[i] == bytes@[from + i]);
                }
                assert(rest[to - from] == bytes@[to as int]);
                lemma_line_length_is(rest, to - from);
                assert(rest.take(to - from) =~= line@);
                assert(rest.skip(to - from + 1) =~= bytes@.skip(to + 1));
                let more = done.push(line@);
                assert(more.drop_last() =~= done);
                assert(done + (seq![line@] + complete_lines(bytes@.skip(to + 1))) =~= more
                    + complete_lines(bytes@.skip(to + 1)));
                lemma_replay_stops(
                    start,
                    more,
                    complete_lines(bytes@.skip(to + 1)),
                    at,
                );
                done = more;
            }
            if line.len() > 0 {
                let record = match Record::read(line) {
                    Some(record) => record,
                    None => return Err(JournalError::Invalid),
                };
                if !crate::affinity::is_valid_binding(record.key.as_str())
                    || !crate::affinity::is_valid_binding(record.account.as_str()) {
                    return Err(JournalError::Binding);
                }
                if record.at <= at && at < record.at.saturating_add(TTL) {
                    proof {
                        crate::affinity::insertion_stays_bounded(routing@, record@, at);
                    }
                    routing.insert(record, at);
                }
            }
            to = to + 1;
            from = to;
        }
        proof {
            let rest = bytes@.skip(from as int);
            assert forall|i: int| 0 <= i < rest.len() implies #[trigger] rest[i] != NEWLINE by {
                assert(rest[i] == bytes@[from + i]);
            }
            lemma_line_length_is(rest, rest.len() as int);
            assert(done + Seq::<Seq<u8>>::empty() =~= done);
        }
        Ok(routing)
    }
}

/// An error in the first lines is the error of all.
proof fn lemma_replay_stops(
    routing: RoutingView,
    first: Seq<Seq<u8>>,
    second: Seq<Seq<u8>>,
    now: u64,
)
    ensures
        replay_lines(routing, first, now) matches Err(error) ==> replay_lines(
            routing,
            first + second,
            now,
        ) == Err::<RoutingView, JournalError>(error),
    decreases second.len(),
{
    if second.len() == 0 {
        assert(first + second =~= first);
    } else {
        lemma_replay_stops(routing, first, second.drop_last(), now);
        assert((first + second).drop_last() =~= first + second.drop_last());
    }
}

/// What follows the last newline is not read: an append that was cut short loses its own record
/// and no other.
pub proof fn incomplete_tail_is_not_read(bytes: Seq<u8>, tail: Seq<u8>)
    requires
        bytes.len() == 0 || bytes.last() == NEWLINE,
        !tail.contains(NEWLINE),
    ensures
        complete_lines(bytes + tail) == complete_lines(bytes),
        complete_length(bytes + tail) == bytes.len(),
    decreases bytes.len(), tail.len(),
{
    lemma_lines_add(bytes, tail);
    lemma_line_length(tail);
    if line_length(tail) < tail.len() {
        assert(tail[line_length(tail) as int] == NEWLINE);
    }
    assert(complete_lines(bytes) + Seq::<Seq<u8>>::empty() =~= complete_lines(bytes));
    lemma_complete_length(bytes, tail);
}

proof fn lemma_complete_length(bytes: Seq<u8>, tail: Seq<u8>)
    requires
        bytes.len() == 0 || bytes.last() == NEWLINE,
        !tail.contains(NEWLINE),
    ensures
        complete_length(bytes + tail) == bytes.len(),
    decreases tail.len(),
{
    if tail.len() == 0 {
        assert(bytes + tail =~= bytes);
    } else {
        let rest = tail.drop_last();
        assert(!rest.contains(NEWLINE)) by {
            if rest.contains(NEWLINE) {
                let i = choose|i: int| 0 <= i < rest.len() && rest[i] == NEWLINE;
                assert(tail[i] == NEWLINE);
            }
        }
        lemma_complete_length(bytes, rest);
        assert((bytes + tail).drop_last() =~= bytes + rest);
        assert((bytes + tail).last() == tail[tail.len() - 1]);
    }
}

/// The lines of complete text followed by more are its lines followed by those of the rest.
proof fn lemma_lines_add(first: Seq<u8>, second: Seq<u8>)
    requires
        first.len() == 0 || first.last() == NEWLINE,
    ensures
        complete_lines(first + second) == complete_lines(first) + complete_lines(second),
    decreases first.len(),
{
    if first.len() == 0 {
        assert(first + second =~= second);
        assert(complete_lines(first) + complete_lines(second) =~= complete_lines(second));
    } else {
        lemma_line_length(first);
        let n = line_length(first) as int;
        if n == first.len() {
            assert(first[n - 1] != NEWLINE);
        }
        let both = first + second;
        assert forall|i: int| 0 <= i < n implies #[trigger] both[i] != NEWLINE by {
            assert(both[i] == first[i]);
        }
        assert(both[n] == first[n]);
        lemma_line_length_is(both, n);
        let rest = first.skip(n + 1);
        assert(both.skip(n + 1) =~= rest + second);
        assert(both.take(n) =~= first.take(n));
        assert(rest.len() > 0 ==> rest.last() == first.last());
        lemma_lines_add(rest, second);
        assert(complete_lines(both) =~= complete_lines(first) + complete_lines(second));
    }
}

/// A journal with one more record is the routing that it held with that record taken in: what was
/// appended is read back.
pub proof fn appended_record_is_read_back(
    bytes: Seq<u8>,
    line: Seq<u8>,
    record: RecordView,
    now: u64,
)
    requires
        bytes.len() == 0 || bytes.last() == NEWLINE,
        is_line_of(line, record),
        bytes.len() + line.len() <= JOURNAL_LIMIT,
        crate::affinity::valid_binding(record.key),
        crate::affinity::valid_binding(record.account),
        record.at <= now < crate::affinity::later(record.at, TTL),
        replayed(bytes, now) is Ok,
    ensures
        replayed(bytes + line, now) == Ok::<RoutingView, JournalError>(
            replayed(bytes, now)->Ok_0.insert(record, now),
        ),
{
    lemma_lines_add(bytes, line);
    lemma_one_line(line);
    let body = line.drop_last();
    let lines = complete_lines(bytes) + seq![body];
    assert(complete_lines(bytes + line) =~= lines);
    assert(lines.drop_last() =~= complete_lines(bytes));
    assert(lines.last() == body);
}

/// A record that counts at a given time: it is neither expired nor from the future.
pub open spec fn counts(record: RecordView, now: u64) -> bool {
    record.at <= now < crate::affinity::later(record.at, TTL)
}

/// The keys of a kind among records.
pub open spec fn keys_of(records: Seq<RecordView>, kind: Kind) -> Set<Seq<char>>
    decreases records.len(),
{
    if records.len() == 0 {
        Set::empty()
    } else if records.last().kind == kind {
        keys_of(records.drop_last(), kind).insert(records.last().key)
    } else {
        keys_of(records.drop_last(), kind)
    }
}

/// The bindings of a kind that records leave: for each key, that of the last record that counts.
pub open spec fn restored(records: Seq<RecordView>, kind: Kind, now: u64) -> Bindings
    decreases records.len(),
{
    if records.len() == 0 {
        Map::empty()
    } else {
        let before = restored(records.drop_last(), kind, now);
        let record = records.last();
        if record.kind == kind && counts(record, now) {
            before.insert(record.key, EntryView { account: record.account, at: record.at })
        } else {
            before
        }
    }
}

/// The account in the last record of a key that counts.
pub open spec fn last_account(
    records: Seq<RecordView>,
    kind: Kind,
    key: Seq<char>,
    now: u64,
) -> Option<Seq<char>>
    decreases records.len(),
{
    if records.len() == 0 {
        None
    } else {
        let record = records.last();
        if record.kind == kind && record.key == key && counts(record, now) {
            Some(record.account)
        } else {
            last_account(records.drop_last(), kind, key, now)
        }
    }
}

/// Lines one after the other.
pub open spec fn written(lines: Seq<Seq<u8>>) -> Seq<u8>
    decreases lines.len(),
{
    if lines.len() == 0 {
        Seq::empty()
    } else {
        written(lines.drop_last()) + lines.last()
    }
}

/// Each line holds the record at its place, and each record binds a digest to a digest.
pub open spec fn are_lines_of(lines: Seq<Seq<u8>>, records: Seq<RecordView>) -> bool {
    &&& lines.len() == records.len()
    &&& forall|i: int|
        #![trigger lines[i]]
        #![trigger records[i]]
        0 <= i < lines.len() ==> is_line_of(lines[i], records[i]) && crate::affinity::valid_binding(
            records[i].key,
        ) && crate::affinity::valid_binding(records[i].account)
}

proof fn lemma_keys_grow(records: Seq<RecordView>, kind: Kind)
    requires
        records.len() > 0,
        keys_of(records, kind).finite(),
        keys_of(records, kind).len() <= LIMIT,
    ensures
        keys_of(records.drop_last(), kind).finite(),
        keys_of(records.drop_last(), kind).len() <= LIMIT,
{
    lemma_keys_finite(records.drop_last(), kind);
    vstd::set_lib::lemma_len_subset(keys_of(records.drop_last(), kind), keys_of(records, kind));
}

proof fn lemma_keys_finite(records: Seq<RecordView>, kind: Kind)
    ensures
        keys_of(records, kind).finite(),
    decreases records.len(),
{
    if records.len() > 0 {
        lemma_keys_finite(records.drop_last(), kind);
    }
}

proof fn lemma_restored_keys(records: Seq<RecordView>, kind: Kind, now: u64)
    ensures
        restored(records, kind, now).dom().subset_of(keys_of(records, kind)),
    decreases records.len(),
{
    if records.len() > 0 {
        lemma_restored_keys(records.drop_last(), kind, now);
    }
}

/// There is room for the next record, so that it drives nothing out.
proof fn lemma_restored_insert(records: Seq<RecordView>, now: u64)
    requires
        records.len() > 0,
        keys_of(records, records.last().kind).len() <= LIMIT,
        counts(records.last(), now),
    ensures
        crate::affinity::with_entry(
            restored(records.drop_last(), records.last().kind, now),
            records.last().key,
            EntryView { account: records.last().account, at: records.last().at },
            now,
        ) == restored(records, records.last().kind, now),
{
    let record = records.last();
    let before = restored(records.drop_last(), record.kind, now);
    let keys = keys_of(records, record.kind);
    lemma_restored_keys(records.drop_last(), record.kind, now);
    lemma_keys_finite(records, record.kind);
    if !before.contains_key(record.key) {
        assert(before.dom().subset_of(keys.remove(record.key)));
        vstd::set_lib::lemma_len_subset(before.dom(), keys.remove(record.key));
        assert(keys.contains(record.key));
    }
}

proof fn lemma_journal(
    records: Seq<RecordView>,
    lines: Seq<Seq<u8>>,
    now: u64,
)
    requires
        are_lines_of(lines, records),
        keys_of(records, Kind::Session).len() <= LIMIT,
        keys_of(records, Kind::Response).len() <= LIMIT,
    ensures
        holds(
            written(lines),
            (RoutingView {
                sessions: restored(records, Kind::Session, now),
                responses: restored(records, Kind::Response, now),
                persistent: true,
                failed: false,
            }),
            now,
        ),
    decreases records.len(),
{
    let empty = crate::affinity::empty_routing(true);
    if records.len() == 0 {
        assert(complete_lines(written(lines)) =~= Seq::<Seq<u8>>::empty());
    } else {
        let earlier = records.drop_last();
        let record = records.last();
        let first = lines.drop_last();
        let line = lines.last();
        lemma_keys_finite(records, Kind::Session);
        lemma_keys_finite(records, Kind::Response);
        lemma_keys_grow(records, Kind::Session);
        lemma_keys_grow(records, Kind::Response);
        assert(are_lines_of(first, earlier)) by {
            assert forall|i: int| 0 <= i < first.len() implies is_line_of(
                #[trigger] first[i],
                earlier[i],
            ) && crate::affinity::valid_binding(earlier[i].key) && crate::affinity::valid_binding(
                earlier[i].account,
            ) by {
                assert(first[i] == lines[i]);
            }
        }
        lemma_journal(earlier, first, now);
        assert(lines[lines.len() - 1] == line);
        let before = RoutingView {
            sessions: restored(earlier, Kind::Session, now),
            responses: restored(earlier, Kind::Response, now),
            persistent: true,
            failed: false,
        };
        if counts(record, now) {
            lemma_restored_insert(records, now);
            lemma_holds_more(written(first), before, line, record, now);
        } else {
            lemma_lines_add(written(first), line);
            lemma_one_line(line);
            let all = complete_lines(written(first)) + seq![line.drop_last()];
            assert(complete_lines(written(first) + line) =~= all);
            assert(all.drop_last() =~= complete_lines(written(first)));
            assert(written(lines).last() == line.last());
        }
    }
}

proof fn lemma_last_account(records: Seq<RecordView>, kind: Kind, key: Seq<char>, now: u64)
    ensures
        match last_account(records, kind, key, now) {
            Some(account) => restored(records, kind, now).contains_key(key)
                && crate::affinity::live(restored(records, kind, now)[key], now) && restored(
                records,
                kind,
                now,
            )[key].account == account,
            None => !restored(records, kind, now).contains_key(key),
        },
    decreases records.len(),
{
    if records.len() > 0 {
        lemma_last_account(records.drop_last(), kind, key, now);
    }
}

/// A journal restores the bindings that were written to it: each key is bound to the account of its
/// last record that counts, and to none where there is no such record. A last record that was cut
/// short is not read, and what stands before it is kept. (No key is driven out, where there are no
/// more of them than a journal keeps.)
pub proof fn journal_restores_bindings(
    records: Seq<RecordView>,
    lines: Seq<Seq<u8>>,
    tail: Seq<u8>,
    now: u64,
)
    requires
        are_lines_of(lines, records),
        !tail.contains(NEWLINE),
        written(lines).len() + tail.len() <= JOURNAL_LIMIT,
        keys_of(records, Kind::Session).len() <= LIMIT,
        keys_of(records, Kind::Response).len() <= LIMIT,
    ensures
        complete_length(written(lines) + tail) == written(lines).len(),
        replayed(written(lines) + tail, now) matches Ok(routing) && {
            &&& routing.persistent
            &&& !routing.failed
            &&& forall|kind: Kind, key: Seq<char>| #[trigger]
                routing.get(kind, key, now) == last_account(records, kind, key, now)
        },
{
    lemma_journal(records, lines, now);
    incomplete_tail_is_not_read(written(lines), tail);
    let routing = RoutingView {
        sessions: restored(records, Kind::Session, now),
        responses: restored(records, Kind::Response, now),
        persistent: true,
        failed: false,
    };
    assert(replayed(written(lines) + tail, now) == Ok::<RoutingView, JournalError>(routing));
    assert forall|kind: Kind, key: Seq<char>| #[trigger] routing.get(kind, key, now)
        == last_account(records, kind, key, now) by {
        lemma_last_account(records, kind, key, now);
    }
}

/// The last record of a key.
pub open spec fn last_record(records: Seq<RecordView>, kind: Kind, key: Seq<char>) -> Option<
    RecordView,
>
    decreases records.len(),
{
    if records.len() == 0 {
        None
    } else if records.last().kind == kind && records.last().key == key {
        Some(records.last())
    } else {
        last_record(records.drop_last(), kind, key)
    }
}

/// The last record of each key that is bound is the one that binds it.
pub open spec fn journaled(records: Seq<RecordView>, routing: RoutingView) -> bool {
    forall|kind: Kind, key: Seq<char>| #[trigger]
        routing.of(kind).contains_key(key) ==> last_record(records, kind, key) == Some(
            RecordView {
                kind,
                key,
                account: routing.of(kind)[key].account,
                at: routing.of(kind)[key].at,
            },
        )
}

/// The records of a journal once a key is to be bound: one more, unless the binding stands.
pub open spec fn recorded(
    records: Seq<RecordView>,
    routing: RoutingView,
    kind: Kind,
    key: Seq<char>,
    account: Seq<char>,
    now: u64,
) -> Seq<RecordView> {
    if routing.failed || routing.unchanged(kind, key, account, now) {
        records
    } else {
        records.push(RecordView { kind, key, account, at: now })
    }
}

/// A journal that gets a record of each binding that is made holds them all.
pub proof fn journal_keeps_up(
    records: Seq<RecordView>,
    routing: RoutingView,
    kind: Kind,
    key: Seq<char>,
    account: Seq<char>,
    now: u64,
)
    requires
        routing.wf(),
        journaled(records, routing),
    ensures
        journaled(
            recorded(records, routing, kind, key, account, now),
            routing.remember(kind, key, account, true, now),
        ),
{
    let more = recorded(records, routing, kind, key, account, now);
    let after = routing.remember(kind, key, account, true, now);
    if !routing.failed && !routing.unchanged(kind, key, account, now) {
        crate::affinity::lemma_room(routing.of(kind), now);
        assert(more.drop_last() =~= records);
        let room = crate::affinity::with_room(routing.of(kind), now);
        assert forall|other_kind: Kind, other: Seq<char>| #[trigger]
            after.of(other_kind).contains_key(other) implies last_record(more, other_kind, other)
            == Some(
            RecordView {
                kind: other_kind,
                key: other,
                account: after.of(other_kind)[other].account,
                at: after.of(other_kind)[other].at,
            },
        ) by {
            if other_kind != kind || other != key {
                assert(other_kind == kind && !routing.of(kind).contains_key(key)
                    ==> room.contains_key(other));
                assert(routing.of(other_kind).contains_key(other));
            }
        }
    }
}

proof fn lemma_last_record(records: Seq<RecordView>, kind: Kind, key: Seq<char>, now: u64)
    ensures
        last_record(records, kind, key) matches Some(record) ==> counts(record, now)
            ==> last_account(records, kind, key, now) == Some(record.account),
        last_record(records, kind, key) is None ==> last_account(records, kind, key, now) is None,
    decreases records.len(),
{
    if records.len() > 0 {
        lemma_last_record(records.drop_last(), kind, key, now);
    }
}

/// A binding lives through a restart: what a key is bound to before, it is bound to afterwards, for
/// as long as the binding lives. A key that was never bound is bound to nothing.
pub proof fn bindings_survive_a_restart(
    routing: RoutingView,
    records: Seq<RecordView>,
    lines: Seq<Seq<u8>>,
    tail: Seq<u8>,
    kind: Kind,
    key: Seq<char>,
    now: u64,
)
    requires
        journaled(records, routing),
        are_lines_of(lines, records),
        !tail.contains(NEWLINE),
        written(lines).len() + tail.len() <= JOURNAL_LIMIT,
        keys_of(records, Kind::Session).len() <= LIMIT,
        keys_of(records, Kind::Response).len() <= LIMIT,
    ensures
        replayed(written(lines) + tail, now) matches Ok(after) && {
            &&& routing.get(kind, key, now) is Some && routing.of(kind)[key].at <= now ==> after.get(
                kind,
                key,
                now,
            ) == routing.get(kind, key, now)
            &&& last_record(records, kind, key) is None ==> after.get(kind, key, now) is None
        },
{
    journal_restores_bindings(records, lines, tail, now);
    lemma_last_record(records, kind, key, now);
    assert(routing.of(kind).contains_key(key) ==> last_record(records, kind, key) is Some);
}

proof fn lemma_one_line(line: Seq<u8>)
    requires
        line.len() > 1,
        line.last() == NEWLINE,
        !line.drop_last().contains(NEWLINE),
    ensures
        complete_lines(line) == seq![line.drop_last()],
{
    let body = line.drop_last();
    let n = body.len() as int;
    assert forall|i: int| 0 <= i < n implies #[trigger] line[i] != NEWLINE by {
        assert(body[i] == line[i]);
    }
    lemma_line_length_is(line, n);
    assert(line.take(n) =~= body);
    assert(line.skip(n + 1) =~= Seq::<u8>::empty());
    reveal_with_fuel(complete_lines, 2);
    assert(complete_lines(line) =~= seq![body]);
}

/// The keys of the first rows of a table.
spec fn first_keys(table: Table<Entry>, count: int) -> Set<Seq<char>> {
    Set::new(
        |key: Seq<char>|
            exists|i: int| 0 <= i < count && (#[trigger] table.entries()[i]).0 == key,
    )
}

/// The live bindings of the first rows of a table.
spec fn first_live(table: Table<Entry>, count: int, now: u64) -> Bindings {
    crate::affinity::live_entries(crate::affinity::bindings_of(table), now).restrict(
        first_keys(table, count),
    )
}

/// What a journal can be rewritten from: digests only, none from the future, and no more of them
/// than there may be.
pub open spec fn storable(bindings: Bindings, now: u64) -> bool {
    &&& bindings.dom().finite()
    &&& bindings.dom().len() <= LIMIT
    &&& forall|key: Seq<char>| #[trigger]
        bindings.contains_key(key) ==> crate::affinity::valid_binding(key)
            && crate::affinity::valid_binding(bindings[key].account) && bindings[key].at <= now
}

/// The records that lines hold.
pub open spec fn records_of(lines: Seq<Seq<u8>>) -> Seq<Option<RecordView>> {
    lines.map_values(|line: Seq<u8>| record_of(line))
}

/// The records of the live bindings among rows, in the order of the rows.
pub open spec fn live_records(rows: Seq<(Seq<char>, EntryView)>, kind: Kind, now: u64) -> Seq<
    Option<RecordView>,
>
    decreases rows.len(),
{
    if rows.len() == 0 {
        Seq::empty()
    } else {
        let before = live_records(rows.drop_last(), kind, now);
        let (key, entry) = rows.last();
        if crate::affinity::live(entry, now) {
            before.push(Some(RecordView { kind, key, account: entry.account, at: entry.at }))
        } else {
            before
        }
    }
}

/// The rows of a table of bindings.
spec fn binding_rows(table: Table<Entry>) -> Seq<(Seq<char>, EntryView)> {
    table.entries().map_values(|row: (Seq<char>, Entry)| (row.0, row.1@))
}

proof fn lemma_binding_rows(table: Table<Entry>)
    requires
        table.wf(),
    ensures
        binding_rows(table) == crate::table::rows_of(crate::affinity::bindings_of(table)),
{
    let rows = binding_rows(table);
    let entries = table.entries();
    table.rows_are_the_map();
    assert forall|i: int, j: int|
        #![trigger rows[i], rows[j]]
        0 <= i < j < rows.len() implies crate::text::before(rows[i].0, rows[j].0) by {
        assert(crate::text::before(entries[i].0, entries[j].0));
    }
    assert forall|key: Seq<char>| #[trigger]
        crate::affinity::bindings_of(table).contains_key(key) implies crate::table::has_key(
        rows,
        key,
    ) by {
        let i = choose|i: int| 0 <= i < entries.len() && (#[trigger] entries[i]).0 == key;
        assert(rows[i].0 == key);
    }
    crate::table::rows_in_order(rows, crate::affinity::bindings_of(table));
}

/// Routing with the bindings of one kind put in place of what it had.
pub open spec fn with_bindings(routing: RoutingView, kind: Kind, bindings: Bindings) -> RoutingView {
    match kind {
        Kind::Session => RoutingView { sessions: bindings, ..routing },
        Kind::Response => RoutingView { responses: bindings, ..routing },
    }
}

/// Text that is empty or ends in a newline, and reads as this routing.
spec fn holds(bytes: Seq<u8>, routing: RoutingView, now: u64) -> bool {
    &&& bytes.len() == 0 || bytes.last() == NEWLINE
    &&& replay_lines(crate::affinity::empty_routing(true), complete_lines(bytes), now) == Ok::<
        RoutingView,
        JournalError,
    >(routing)
}

proof fn lemma_holds_more(
    bytes: Seq<u8>,
    routing: RoutingView,
    line: Seq<u8>,
    record: RecordView,
    now: u64,
)
    requires
        holds(bytes, routing, now),
        is_line_of(line, record),
        crate::affinity::valid_binding(record.key),
        crate::affinity::valid_binding(record.account),
        record.at <= now < crate::affinity::later(record.at, TTL),
    ensures
        holds(bytes + line, routing.insert(record, now), now),
{
    lemma_lines_add(bytes, line);
    lemma_one_line(line);
    let lines = complete_lines(bytes) + seq![line.drop_last()];
    assert(complete_lines(bytes + line) =~= lines);
    assert(lines.drop_last() =~= complete_lines(bytes));
    assert((bytes + line).last() == line.last());
}

/// Appends the lines of the live rows of a table.
fn append_rows(
    out: &mut Vec<u8>,
    table: &Table<Entry>,
    kind: Kind,
    at: u64,
    Ghost(routing): Ghost<RoutingView>,
)
    requires
        table.wf(),
        old(out)@.len() == 0 || old(out)@.last() == NEWLINE,
    ensures
        final(out)@.len() == 0 || final(out)@.last() == NEWLINE,
        records_of(complete_lines(final(out)@)) == records_of(complete_lines(old(out)@))
            + live_records(
            crate::table::rows_of(crate::affinity::bindings_of(*table)),
            kind,
            at,
        ),
        storable(crate::affinity::bindings_of(*table), at) && holds(old(out)@, routing, at)
            && routing.of(kind) == Map::<Seq<char>, EntryView>::empty() ==> holds(
            final(out)@,
            with_bindings(
                routing,
                kind,
                crate::affinity::live_entries(crate::affinity::bindings_of(*table), at),
            ),
            at,
        ),
{
    let ghost first = records_of(complete_lines(out@));
    let ghost rows = binding_rows(*table);
    let ghost fit = storable(crate::affinity::bindings_of(*table), at) && holds(out@, routing, at)
        && routing.of(kind) == Map::<Seq<char>, EntryView>::empty();
    let ghost all = crate::affinity::bindings_of(*table);
    let ghost current = crate::affinity::live_entries(all, at);
    proof {
        assert(first_live(*table, 0, at) =~= Map::empty());
        assert(fit ==> with_bindings(routing, kind, Map::empty()) =~= routing);
        assert(all.dom() =~= table@.dom());
        assert(first + live_records(rows.take(0), kind, at) =~= first);
    }
    let count: usize = table.len();
    let mut i: usize = 0;
    while i < count
        invariant
            table.wf(),
            i <= count,
            count == table.entries().len(),
            all == crate::affinity::bindings_of(*table),
            all.dom().finite(),
            all.dom().len() == count,
            current == crate::affinity::live_entries(all, at),
            rows == binding_rows(*table),
            out@.len() == 0 || out@.last() == NEWLINE,
            records_of(complete_lines(out@)) == first + live_records(
                rows.take(i as int),
                kind,
                at,
            ),
            fit ==> storable(all, at) && holds(
                out@,
                with_bindings(routing, kind, first_live(*table, i as int, at)),
                at,
            ),
        decreases count - i,
    {
        let ghost before = first_live(*table, i as int, at);
        let ghost after = first_live(*table, i + 1, at);
        let ghost key = table.entries()[i as int].0;
        let entry = table.value(i);
        proof {
            assert(rows.take(i + 1).drop_last() =~= rows.take(i as int));
            assert(rows.take(i + 1).last() == (key, entry@));
            table.rows_are_the_map();
            assert(all.contains_key(key));
            assert(all[key] == entry@);
            assert(!before.contains_key(key)) by {
                if before.contains_key(key) {
                    let j = choose|j: int|
                        0 <= j < i && (#[trigger] table.entries()[j]).0 == key;
                    assert(crate::text::before(
                        table.entries()[j].0,
                        table.entries()[i as int].0,
                    ));
                    crate::text::before_is_total(key, key);
                }
            }
            assert(before.dom().subset_of(all.dom().remove(key)));
            vstd::set_lib::lemma_len_subset(before.dom(), all.dom().remove(key));
        }
        if at < entry.at.saturating_add(TTL) {
            let line = line_of(kind, table.key(i), entry.account.as_str(), entry.at);
            proof {
                let record = RecordView { kind, key, account: entry.account@, at: entry.at };
                let held = with_bindings(routing, kind, before);
                lemma_lines_add(out@, line@);
                lemma_one_line(line@);
                assert(records_of(complete_lines(out@ + line@)) =~= records_of(
                    complete_lines(out@),
                ).push(Some(record)));
                if fit {
                    lemma_holds_more(out@, held, line@, record, at);
                }
                assert(after =~= before.insert(key, entry@)) by {
                    assert forall|other: Seq<char>| #[trigger] after.contains_key(other) == (
                    before.contains_key(other) || other == key) by {
                        if first_keys(*table, i + 1).contains(other) && other != key {
                            let j = choose|j: int|
                                0 <= j < i + 1 && (#[trigger] table.entries()[j]).0 == other;
                            assert(j < i);
                        }
                        if first_keys(*table, i as int).contains(other) {
                            let j = choose|j: int|
                                0 <= j < i && (#[trigger] table.entries()[j]).0 == other;
                            assert(0 <= j < i + 1);
                        }
                        assert(table.entries()[i as int].0 == key);
                    }
                }
                assert(fit ==> held.insert(record, at) =~= with_bindings(routing, kind, after));
            }
            let ghost text = out@;
            let mut line = line;
            let ghost whole = line@;
            out.append(&mut line);
            assert(out@ =~= text + whole);
        } else {
            assert(after =~= before) by {
                assert forall|other: Seq<char>| #[trigger] after.contains_key(other)
                    == before.contains_key(other) by {
                    if after.contains_key(other) {
                        let j = choose|j: int|
                            0 <= j < i + 1 && (#[trigger] table.entries()[j]).0 == other;
                        assert(j < i);
                    }
                    if first_keys(*table, i as int).contains(other) {
                        let j = choose|j: int|
                            0 <= j < i && (#[trigger] table.entries()[j]).0 == other;
                        assert(0 <= j < i + 1);
                    }
                }
            }
        }
        i = i + 1;
    }
    proof {
        assert(rows.take(count as int) =~= rows);
        lemma_binding_rows(*table);
        table.rows_are_the_map();
        assert(first_live(*table, count as int, at) =~= current) by {
            assert forall|key: Seq<char>| current.contains_key(key) implies first_keys(
                *table,
                count as int,
            ).contains(key) by {
                assert(table@.contains_key(key));
                let j = choose|j: int|
                    0 <= j < table.entries().len() && (#[trigger] table.entries()[j]).0 == key;
                assert(0 <= j < count);
            }
        }
    }
}

impl Routing {
    /// The text of a journal that holds the live bindings and nothing else, one line for each.
    /// Reading it back at the same time gives exactly these bindings, where they are digests and
    /// none is from the future.
    pub fn compact(&self, at: u64) -> (bytes: Vec<u8>)
        requires
            self.wf(),
        ensures
            bytes@.len() == 0 || bytes@.last() == NEWLINE,
            records_of(complete_lines(bytes@)) == live_records(
                crate::table::rows_of(self@.sessions),
                Kind::Session,
                at,
            ) + live_records(crate::table::rows_of(self@.responses), Kind::Response, at),
            storable(self@.sessions, at) && storable(self@.responses, at) ==> replay_lines(crate::affinity::empty_routing(true), complete_lines(bytes@), at) == Ok::<
                RoutingView,
                JournalError,
            >(
                RoutingView {
                    sessions: crate::affinity::live_entries(self@.sessions, at),
                    responses: crate::affinity::live_entries(self@.responses, at),
                    persistent: true,
                    failed: false,
                },
            ),
    {
        let mut bytes: Vec<u8> = Vec::new();
        let ghost empty = crate::affinity::empty_routing(true);
        let ghost first = with_bindings(
            empty,
            Kind::Session,
            crate::affinity::live_entries(self@.sessions, at),
        );
        proof {
            assert(complete_lines(bytes@) =~= Seq::<Seq<u8>>::empty());
            assert(holds(bytes@, empty, at));
            assert(records_of(complete_lines(bytes@)) =~= Seq::empty());
        }
        append_rows(&mut bytes, self.rows(Kind::Session), Kind::Session, at, Ghost(empty));
        append_rows(&mut bytes, self.rows(Kind::Response), Kind::Response, at, Ghost(first));
        bytes
    }
}

proof fn lemma_insert_storable(routing: RoutingView, record: RecordView, now: u64)
    requires
        storable(routing.sessions, now),
        storable(routing.responses, now),
        crate::affinity::valid_binding(record.key),
        crate::affinity::valid_binding(record.account),
        record.at <= now,
    ensures
        storable(routing.insert(record, now).sessions, now),
        storable(routing.insert(record, now).responses, now),
{
    crate::affinity::insertion_stays_bounded(routing, record, now);
    let map = routing.of(record.kind);
    crate::affinity::lemma_room(map, now);
    let room = crate::affinity::with_room(map, now);
    assert forall|key: Seq<char>| #[trigger] room.contains_key(key) implies map.contains_key(key)
        && room[key] == map[key] by {
        assert(room.dom().contains(key));
    }
}

proof fn lemma_replay_storable(lines: Seq<Seq<u8>>, now: u64)
    ensures
        replay_lines(crate::affinity::empty_routing(true), lines, now) matches Ok(routing)
            ==> storable(routing.sessions, now) && storable(routing.responses, now),
    decreases lines.len(),
{
    if lines.len() > 0 {
        lemma_replay_storable(lines.drop_last(), now);
        let before = replay_lines(crate::affinity::empty_routing(true), lines.drop_last(), now);
        if let Ok(routing) = before {
            if let Some(record) = record_of(lines.last()) {
                if crate::affinity::valid_binding(record.key) && crate::affinity::valid_binding(
                    record.account,
                ) && record.at <= now {
                    lemma_insert_storable(routing, record, now);
                }
            }
        }
    }
}

/// What a journal was read as can be written to a journal again, then and at any later time.
pub proof fn replayed_bindings_are_storable(bytes: Seq<u8>, now: u64, at: u64)
    requires
        now <= at,
    ensures
        replayed(bytes, now) matches Ok(routing) ==> storable(routing.sessions, at) && storable(
            routing.responses,
            at,
        ),
{
    lemma_replay_storable(complete_lines(bytes), now);
}

/// Routing that can be written to a journal still can be once a digest was bound to a digest, then
/// and at any later time.
pub proof fn new_bindings_are_storable(
    routing: RoutingView,
    kind: Kind,
    key: Seq<char>,
    account: Seq<char>,
    stored: bool,
    now: u64,
    at: u64,
)
    requires
        storable(routing.sessions, now),
        storable(routing.responses, now),
        crate::affinity::valid_binding(key),
        crate::affinity::valid_binding(account),
        now <= at,
    ensures
        ({
            let after = routing.remember(kind, key, account, stored, now);
            storable(after.sessions, at) && storable(after.responses, at)
        }),
{
    lemma_insert_storable(routing, RecordView { kind, key, account, at: now }, now);
}

/// A record is read from a JSON object with four members: its `kind`, which is `session` or
/// `response`, its `key`, its `account` and its time, `at`.
pub proof fn records_are_read_by_name(line: Seq<u8>, value: JsonView, record: RecordView)
    requires
        crate::json::json_value(line) == Some(value),
        value is Object,
        record_of(line) == Some(record),
    ensures
        value->Object_0.len() == 4,
        value.member_text("key"@) == Some(record.key),
        value.member_text("account"@) == Some(record.account),
        value.member_unsigned("at"@) == Some(record.at),
        value.member("kind"@) is Some,
        value.member_text("kind"@) is Some ==> value.member_text("kind"@)->Some_0 == (
        if record.kind == Kind::Session {
            "session"@
        } else {
            "response"@
        }),
{
    crate::json::members_are_read_as_what_they_are(value, "key"@);
    crate::json::members_are_read_as_what_they_are(value, "account"@);
    crate::json::members_are_read_as_what_they_are(value, "at"@);
    crate::json::members_are_read_as_what_they_are(value, "kind"@);
}

/// A record counts for a day from its time, and not before it; one with a key or an account that is
/// no digest, or a line that is no record, stops the reading.
pub proof fn replayed_records_count_for_a_day(
    routing: RoutingView,
    line: Seq<u8>,
    record: RecordView,
    now: u64,
)
    requires
        line.len() > 0,
        record.at + 86_400 <= u64::MAX,
    ensures
        ({
            let sound = record.key.len() == 43 && record.account.len() == 43
                && crate::affinity::valid_binding(record.key) && crate::affinity::valid_binding(
                record.account,
            );
            let result = replay_line(routing, line, now);
            &&& record_of(line) == Some(record) && sound && record.at <= now < record.at + 86_400
                ==> result == Ok::<RoutingView, JournalError>(routing.insert(record, now))
            &&& record_of(line) == Some(record) && sound && !(record.at <= now < record.at
                + 86_400) ==> result == Ok::<RoutingView, JournalError>(routing)
            &&& record_of(line) == Some(record) && !sound ==> result == Err::<
                RoutingView,
                JournalError,
            >(JournalError::Binding)
            &&& record_of(line) is None ==> result == Err::<RoutingView, JournalError>(
                JournalError::Invalid,
            )
        }),
        replay_line(routing, Seq::empty(), now) == Ok::<RoutingView, JournalError>(routing),
{
}

/// A journal of more than 8 MiB is not read.
pub proof fn large_journals_are_not_read(bytes: Seq<u8>, now: u64)
    requires
        bytes.len() > 8 * 1024 * 1024,
    ensures
        replayed(bytes, now) == Err::<RoutingView, JournalError>(JournalError::TooLarge),
{
}

/// What is said of a journal that cannot be read.
pub proof fn journal_errors_are_worded()
    ensures
        error_text(JournalError::TooLarge) == "routing journal exceeds size limit"@,
        error_text(JournalError::Invalid) == "invalid routing journal"@,
        error_text(JournalError::Binding) == "invalid routing binding"@,
{
}

/// The bytes that part a journal and its records.
pub proof fn journals_are_parted_by_these_bytes()
    ensures
        NEWLINE == 10,
        COMMA == ',' as u8,
        CLOSE_OBJECT == '}' as u8,
        CLOSE_LIST == ']' as u8,
{
}

/// Bindings can be stored where there are at most 10,000, of digests only, and none is of a time to
/// come.
pub proof fn bindings_are_stored_whole(bindings: Bindings, now: u64, key: Seq<char>)
    requires
        storable(bindings, now),
        bindings.contains_key(key),
    ensures
        bindings.dom().len() <= 10_000,
        crate::affinity::valid_binding(key),
        crate::affinity::valid_binding(bindings[key].account),
        bindings[key].at <= now,
{
}

/// A comma parts two members where what stands before it, closed, is a value; such commas are counted
/// from the start of the line.
pub proof fn members_are_counted_by_their_commas(line: Seq<u8>, closing: Seq<u8>, i: int)
    requires
        0 <= i < line.len(),
    ensures
        separators(line, closing, 0) == 0,
        line[i] == ',' as u8 && crate::json::json_value(line.take(i) + closing) is Some
            ==> separators(line, closing, i + 1) == separators(line, closing, i) + 1,
        line[i] != ',' as u8 || crate::json::json_value(line.take(i) + closing) is None
            ==> separators(line, closing, i + 1) == separators(line, closing, i),
{
}

/// A line with another number of members than it shows, or with a kind that holds more than its name,
/// says something twice, and is no record.
pub proof fn repeated_members_make_no_record(line: Seq<u8>, value: JsonView)
    requires
        crate::json::json_value(line) == Some(value),
        value is Object,
        separators(line, seq!['}' as u8], line.len() as int) != 3,
    ensures
        record_of(line) is None,
{
    assert(seq!['}' as u8] =~= seq![CLOSE_OBJECT]);
}

} // verus!
