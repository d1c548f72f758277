//! Durable account routing: which account a session or a response belongs to.
//!
//! Keys and account bindings are digests; nothing else is kept. A binding lives for a day, and
//! each of the two maps holds a bounded number of bindings.
use crate::codec::hashed;
use crate::now;
use crate::table::Table;
use crate::text::same;
use vstd::prelude::*;

verus! {

/// How many bindings each of the two maps holds.
pub const LIMIT: usize = 10_000;

/// How many seconds a binding lives.
pub const TTL: u64 = 86_400;

/// How many seconds pass before an unchanged binding is written again.
pub const REFRESH: u64 = 60;

/// The size from which the journal is rewritten before the next record.
pub const COMPACT_BYTES: u64 = 4_194_304;

/// The size above which a journal is not read.
pub const JOURNAL_LIMIT: u64 = 8_388_608;

/// The sum, or the greatest number where the sum is greater.
pub open spec fn later(at: u64, seconds: u64) -> u64 {
    if at + seconds > u64::MAX {
        u64::MAX
    } else {
        (at + seconds) as u64
    }
}

/// The digest of a value, as keys and bindings hold it.
pub fn hash(value: &[u8]) -> (text: String)
    ensures
        text@ == crate::codec::encoded(crate::codec::sha256(value@)),
        valid_binding(text@),
{
    hashed(value)
}

/// A digest in the form that `hash` gives: 43 letters of the URL-safe base64 alphabet.
pub open spec fn valid_binding(text: Seq<char>) -> bool {
    &&& text.len() == 43
    &&& forall|i: int| 0 <= i < text.len() ==> crate::codec::is_letter(#[trigger] text[i])
}

pub(crate) fn is_valid_binding(text: &str) -> (yes: bool)
    ensures
        yes == valid_binding(text@),
{
    let chars = crate::text::chars_of(text);
    if chars.len() != 43 {
        return false;
    }
    let mut i: usize = 0;
    while i < chars.len()
        invariant
            i <= chars@.len(),
            chars@ == text@,
            chars@.len() == 43,
            forall|k: int| 0 <= k < i ==> crate::codec::is_letter(#[trigger] chars@[k]),
        decreases chars@.len() - i,
    {
        let symbol = chars[i];
        if !(('A' <= symbol && symbol <= 'Z') || ('a' <= symbol && symbol <= 'z') || ('0' <= symbol
            && symbol <= '9') || symbol == '-' || symbol == '_') {
            assert(!crate::codec::is_letter(text@[i as int]));
            return false;
        }
        i = i + 1;
    }
    true
}

/// What a binding is for.
#[derive(Clone, Copy, Debug, PartialEq, Eq, Hash, Structural)]
pub enum Kind {
    Session,
    Response,
}

/// The name of a kind in the journal.
pub open spec fn kind_name(kind: Kind) -> Seq<char> {
    match kind {
        Kind::Session => "session"@,
        Kind::Response => "response"@,
    }
}

impl Kind {
    /// The name of the kind in the journal.
    pub fn name(self) -> (name: &'static str)
        ensures
            name@ == kind_name(self),
    {
        match self {
            Kind::Session => "session",
            Kind::Response => "response",
        }
    }
}

/// A binding: the account, and when it was bound.
#[derive(Debug)]
pub struct Entry {
    pub account: String,
    pub at: u64,
}

/// What a binding holds.
pub struct EntryView {
    pub account: Seq<char>,
    pub at: u64,
}

impl View for Entry {
    type V = EntryView;

    open spec fn view(&self) -> EntryView {
        EntryView { account: self.account@, at: self.at }
    }
}

/// A binding as the journal holds it.
#[derive(Debug)]
pub struct Record {
    pub kind: Kind,
    pub key: String,
    pub account: String,
    pub at: u64,
}

/// What a record holds.
pub struct RecordView {
    pub kind: Kind,
    pub key: Seq<char>,
    pub account: Seq<char>,
    pub at: u64,
}

impl View for Record {
    type V = RecordView;

    open spec fn view(&self) -> RecordView {
        RecordView { kind: self.kind, key: self.key@, account: self.account@, at: self.at }
    }
}

/// The bindings of one kind.
pub type Bindings = Map<Seq<char>, EntryView>;

/// The routing state: the bindings of sessions and of responses, whether there is a journal, and
/// whether a write to it has failed.
#[verifier::ext_equal]
pub struct RoutingView {
    pub sessions: Bindings,
    pub responses: Bindings,
    pub persistent: bool,
    pub failed: bool,
}

/// The binding has not expired.
pub open spec fn live(entry: EntryView, now: u64) -> bool {
    now < later(entry.at, TTL)
}

/// The bindings that have not expired.
pub open spec fn live_entries(map: Bindings, now: u64) -> Bindings {
    map.restrict(Set::new(|key: Seq<char>| map.contains_key(key) && live(map[key], now)))
}

/// The key of the oldest binding; of bindings made at the same time, the first key.
pub open spec fn is_oldest(map: Bindings, key: Seq<char>) -> bool {
    &&& map.contains_key(key)
    &&& forall|other: Seq<char>| #[trigger]
        map.contains_key(other) ==> map[key].at < map[other].at || (map[key].at == map[other].at
            && (key == other || crate::text::before(key, other)))
}

/// The bindings without the oldest.
pub open spec fn without_oldest(map: Bindings) -> Bindings {
    map.remove(choose|key: Seq<char>| is_oldest(map, key))
}

/// The bindings with room for one more: where there are as many as there may be, the expired ones
/// leave, and if that is not enough the oldest leaves.
pub open spec fn with_room(map: Bindings, now: u64) -> Bindings {
    if map.dom().len() >= LIMIT {
        let current = live_entries(map, now);
        if current.dom().len() >= LIMIT {
            without_oldest(current)
        } else {
            current
        }
    } else {
        map
    }
}

/// The bindings with one more.
pub open spec fn with_entry(map: Bindings, key: Seq<char>, entry: EntryView, now: u64) -> Bindings {
    if map.contains_key(key) {
        map.insert(key, entry)
    } else {
        with_room(map, now).insert(key, entry)
    }
}

impl RoutingView {
    /// The bindings of a kind.
    pub open spec fn of(self, kind: Kind) -> Bindings {
        match kind {
            Kind::Session => self.sessions,
            Kind::Response => self.responses,
        }
    }

    /// The account that a key is bound to.
    pub open spec fn get(self, kind: Kind, key: Seq<char>, now: u64) -> Option<Seq<char>> {
        if !self.failed && self.of(kind).contains_key(key) && live(self.of(kind)[key], now) {
            Some(self.of(kind)[key].account)
        } else {
            None
        }
    }

    /// The routing with a record taken in.
    pub open spec fn insert(self, record: RecordView, now: u64) -> RoutingView {
        let entry = EntryView { account: record.account, at: record.at };
        match record.kind {
            Kind::Session => RoutingView {
                sessions: with_entry(self.sessions, record.key, entry, now),
                ..self
            },
            Kind::Response => RoutingView {
                responses: with_entry(self.responses, record.key, entry, now),
                ..self
            },
        }
    }

    /// The key is already bound to the account, by a binding that is not due to be written again.
    pub open spec fn unchanged(
        self,
        kind: Kind,
        key: Seq<char>,
        account: Seq<char>,
        now: u64,
    ) -> bool {
        &&& self.of(kind).contains_key(key)
        &&& self.of(kind)[key].account == account
        &&& now < later(self.of(kind)[key].at, REFRESH)
    }

    /// The routing once a key is to be bound to an account, where `stored` tells whether the
    /// journal took the record.
    pub open spec fn remember(
        self,
        kind: Kind,
        key: Seq<char>,
        account: Seq<char>,
        stored: bool,
        now: u64,
    ) -> RoutingView {
        if self.failed || self.unchanged(kind, key, account, now) {
            self
        } else if stored {
            self.insert(RecordView { kind, key, account, at: now }, now)
        } else {
            RoutingView { failed: true, ..self }
        }
    }

    /// Neither map holds more than the limit.
    pub open spec fn wf(self) -> bool {
        &&& self.sessions.dom().finite()
        &&& self.responses.dom().finite()
        &&& self.sessions.dom().len() <= LIMIT
        &&& self.responses.dom().len() <= LIMIT
    }
}

/// The routing of an empty pool.
pub open spec fn empty_routing(persistent: bool) -> RoutingView {
    RoutingView {
        sessions: Map::empty(),
        responses: Map::empty(),
        persistent,
        failed: false,
    }
}

/// The bindings that a table holds.
pub open spec fn bindings_of(table: Table<Entry>) -> Bindings {
    table@.map_values(|entry: Entry| entry@)
}

fn is_live(at: u64, now: u64) -> (yes: bool)
    ensures
        yes == (now < later(at, TTL)),
{
    now < at.saturating_add(TTL)
}

/// Takes the expired bindings out.
fn drop_expired(table: &mut Table<Entry>, now: u64)
    requires
        old(table).wf(),
    ensures
        final(table).wf(),
        bindings_of(*final(table)) == live_entries(bindings_of(*old(table)), now),
{
    let ghost before = table@;
    let mut i: usize = 0;
    while i < table.len()
        invariant
            table.wf(),
            i <= table.entries().len(),
            forall|k: int|
                0 <= k < i ==> now < later((#[trigger] table.entries()[k]).1.at, TTL),
            forall|key: Seq<char>| #[trigger]
                table@.contains_key(key) ==> before.contains_key(key) && before[key] == table@[key],
            forall|key: Seq<char>| #[trigger]
                before.contains_key(key) && now < later(before[key].at, TTL)
                    ==> table@.contains_key(key),
        decreases table.entries().len() - i,
    {
        if is_live(table.value(i).at, now) {
            i = i + 1;
        } else {
            proof {
                table.rows_are_the_map();
            }
            table.remove_row(i);
        }
    }
    proof {
        table.rows_are_the_map();
        let target = live_entries(bindings_of(*old(table)), now);
        assert forall|key: Seq<char>| bindings_of(*table).contains_key(key) implies #[trigger]
            target.contains_key(key) && target[key] == bindings_of(*table)[key] by {
            assert(table@.contains_key(key));
            let k = choose|k: int|
                0 <= k < table.entries().len() && (#[trigger] table.entries()[k]).0 == key;
            assert(now < later(table.entries()[k].1.at, TTL));
        }
        assert(bindings_of(*table) =~= target);
    }
}

/// Takes the oldest binding out.
fn drop_oldest(table: &mut Table<Entry>)
    requires
        old(table).wf(),
        old(table)@.dom().len() > 0,
    ensures
        final(table).wf(),
        bindings_of(*final(table)) == without_oldest(bindings_of(*old(table))),
        final(table)@.dom().len() == old(table)@.dom().len() - 1,
{
    proof {
        table.rows_are_the_map();
    }
    let mut best: usize = 0;
    let mut i: usize = 1;
    let count: usize = table.len();
    while i < count
        invariant
            table.wf(),
            count == table.entries().len(),
            best < i <= count,
            forall|k: int|
                0 <= k < i ==> table.entries()[best as int].1.at < (
                #[trigger] table.entries()[k]).1.at || (table.entries()[best as int].1.at
                    == table.entries()[k].1.at && best <= k),
        decreases count - i,
    {
        if table.value(i).at < table.value(best).at {
            best = i;
        }
        i = i + 1;
    }
    proof {
        let map = bindings_of(*table);
        let key = table.entries()[best as int].0;
        assert(is_oldest(map, key)) by {
            assert forall|other: Seq<char>| #[trigger] map.contains_key(other) implies map[key].at
                < map[other].at || (map[key].at == map[other].at && (key == other
                || crate::text::before(key, other))) by {
                assert(table@.contains_key(other));
                let k = choose|k: int|
                    0 <= k < table.entries().len() && (#[trigger] table.entries()[k]).0 == other;
                assert(table@[other] == table.entries()[k].1);
                assert(best < k ==> crate::text::before(
                    table.entries()[best as int].0,
                    table.entries()[k].0,
                ));
            }
        }
        let chosen = choose|chosen: Seq<char>| is_oldest(map, chosen);
        assert(chosen == key) by {
            assert(is_oldest(map, chosen));
            assert(map.contains_key(chosen));
            assert(map.contains_key(key));
            crate::text::before_is_total(chosen, key);
        }
    }
    table.remove_row(best);
    assert(bindings_of(*table) =~= without_oldest(bindings_of(*old(table))));
}

/// Binds a key.
fn put(table: &mut Table<Entry>, key: String, entry: Entry, now: u64)
    requires
        old(table).wf(),
    ensures
        final(table).wf(),
        bindings_of(*final(table)) == with_entry(bindings_of(*old(table)), key@, entry@, now),
{
    let ghost before = bindings_of(*table);
    assert(before.dom() =~= table@.dom());
    if table.len() >= LIMIT && !table.contains_key(key.as_str()) {
        drop_expired(table, now);
        assert(bindings_of(*table).dom() =~= table@.dom());
        if table.len() >= LIMIT {
            drop_oldest(table);
        }
        assert(bindings_of(*table) == with_room(before, now));
    }
    let ghost middle = bindings_of(*table);
    let ghost here = key@;
    let ghost value = entry@;
    table.insert(key, entry);
    assert(bindings_of(*table) =~= middle.insert(here, value));
}

/// The routing state.
pub struct Routing {
    sessions: Table<Entry>,
    responses: Table<Entry>,
    persistent: bool,
    failed: bool,
}

impl View for Routing {
    type V = RoutingView;

    closed spec fn view(&self) -> RoutingView {
        RoutingView {
            sessions: bindings_of(self.sessions),
            responses: bindings_of(self.responses),
            persistent: self.persistent,
            failed: self.failed,
        }
    }
}

/// What is to be done before a key counts as bound.
pub enum Plan {
    /// A write has failed before: nothing more is bound.
    Unavailable,
    /// The binding stands as it is.
    Unchanged,
    /// This record goes to the journal, where there is one, and then to `commit`.
    Write(Record),
}

/// A write to the journal has failed, now or before.
#[derive(Clone, Copy, Debug, PartialEq, Eq, Structural)]
pub struct Unavailable;

impl Routing {
    /// The two tables are in order.
    pub closed spec fn wf(&self) -> bool {
        self.sessions.wf() && self.responses.wf()
    }

    /// Routing that nothing is bound in yet.
    pub fn new(persistent: bool) -> (routing: Routing)
        ensures
            routing.wf(),
            routing@ == empty_routing(persistent),
    {
        let routing = Routing {
            sessions: Table::new(),
            responses: Table::new(),
            persistent,
            failed: false,
        };
        assert(routing@ =~= empty_routing(persistent));
        routing
    }

    /// Whether there is a journal.
    pub fn persistent(&self) -> (yes: bool)
        ensures
            yes == self@.persistent,
    {
        self.persistent
    }

    /// Whether every write to the journal has succeeded.
    pub fn healthy(&self) -> (yes: bool)
        ensures
            yes == !self@.failed,
    {
        !self.failed
    }

    /// How many keys of a kind are bound.
    pub fn count(&self, kind: Kind) -> (count: usize)
        requires
            self.wf(),
        ensures
            self@.of(kind).dom().finite(),
            count == self@.of(kind).dom().len(),
    {
        assert(bindings_of(self.sessions).dom() =~= self.sessions@.dom());
        assert(bindings_of(self.responses).dom() =~= self.responses@.dom());
        match kind {
            Kind::Session => self.sessions.len(),
            Kind::Response => self.responses.len(),
        }
    }

    /// The table of a kind.
    pub(crate) fn rows(&self, kind: Kind) -> (table: &Table<Entry>)
        requires
            self.wf(),
        ensures
            table.wf(),
            bindings_of(*table) == self@.of(kind),
    {
        match kind {
            Kind::Session => &self.sessions,
            Kind::Response => &self.responses,
        }
    }

    fn entry(&self, kind: Kind, key: &str) -> (entry: Option<&Entry>)
        requires
            self.wf(),
        ensures
            entry is Some <==> self@.of(kind).contains_key(key@),
            entry matches Some(found) ==> found@ == self@.of(kind)[key@],
    {
        match kind {
            Kind::Session => self.sessions.get(key),
            Kind::Response => self.responses.get(key),
        }
    }

    /// The account that a key is bound to at a given time.
    pub fn get_at(&self, kind: Kind, key: &str, at: u64) -> (account: Option<&str>)
        requires
            self.wf(),
        ensures
            crate::json::read(account) == self@.get(kind, key@, at),
    {
        if self.failed {
            return None;
        }
        match self.entry(kind, key) {
            Some(entry) => if is_live(entry.at, at) {
                Some(entry.account.as_str())
            } else {
                None
            },
            None => None,
        }
    }

    /// The account that a key is bound to now.
    pub fn get(&self, kind: Kind, key: &str) -> (account: Option<&str>)
        requires
            self.wf(),
        ensures
            exists|at: u64| crate::json::read(account) == #[trigger] self@.get(kind, key@, at),
    {
        let at: u64 = now();
        self.get_at(kind, key, at)
    }

    /// Takes a record in.
    pub fn insert(&mut self, record: Record, at: u64)
        requires
            old(self).wf(),
        ensures
            final(self).wf(),
            final(self)@ == old(self)@.insert(record@, at),
    {
        let Record { kind, key, account, at: bound } = record;
        let entry = Entry { account, at: bound };
        match kind {
            Kind::Session => put(&mut self.sessions, key, entry, at),
            Kind::Response => put(&mut self.responses, key, entry, at),
        }
        assert(self@ =~= old(self)@.insert(record@, at));
    }

    /// What is to be done before a key counts as bound to an account.
    pub fn plan(&self, kind: Kind, key: String, account: String, at: u64) -> (plan: Plan)
        requires
            self.wf(),
        ensures
            match plan {
                Plan::Unavailable => self@.failed,
                Plan::Unchanged => !self@.failed && self@.unchanged(kind, key@, account@, at),
                Plan::Write(record) => !self@.failed && !self@.unchanged(kind, key@, account@, at)
                    && record@ == (RecordView { kind, key: key@, account: account@, at }),
            },
    {
        if self.failed {
            return Plan::Unavailable;
        }
        let unchanged = match self.entry(kind, key.as_str()) {
            Some(entry) => same(entry.account.as_str(), account.as_str()) && at
                < entry.at.saturating_add(REFRESH),
            None => false,
        };
        if unchanged {
            Plan::Unchanged
        } else {
            Plan::Write(Record { kind, key, account, at })
        }
    }

    /// Takes a planned record in, where the journal took it, and else stops all routing.
    pub fn commit(&mut self, record: Record, stored: bool, at: u64)
        requires
            old(self).wf(),
        ensures
            final(self).wf(),
            stored ==> final(self)@ == old(self)@.insert(record@, at),
            !stored ==> final(self)@ == (RoutingView { failed: true, ..old(self)@ }),
    {
        if stored {
            self.insert(record, at);
        } else {
            self.failed = true;
            assert(self@ =~= RoutingView { failed: true, ..old(self)@ });
        }
    }

    /// Binds a key to an account at a given time, where `stored` tells whether the journal takes
    /// the record.
    pub fn remember_at(
        &mut self,
        kind: Kind,
        key: String,
        account: String,
        stored: bool,
        at: u64,
    ) -> (result: Result<(), Unavailable>)
        requires
            old(self).wf(),
        ensures
            final(self).wf(),
            final(self)@ == old(self)@.remember(kind, key@, account@, stored, at),
            result is Ok <==> !final(self)@.failed,
    {
        match self.plan(kind, key, account, at) {
            Plan::Unavailable => Err(Unavailable),
            Plan::Unchanged => Ok(()),
            Plan::Write(record) => {
                self.commit(record, stored, at);
                if stored {
                    Ok(())
                } else {
                    Err(Unavailable)
                }
            },
        }
    }

    /// Binds a key to an account in routing without a journal.
    pub fn remember(&mut self, kind: Kind, key: String, account: String) -> (result: Result<
        (),
        Unavailable,
    >)
        requires
            old(self).wf(),
            !old(self)@.persistent,
        ensures
            final(self).wf(),
            exists|at: u64|
                final(self)@ == #[trigger] old(self)@.remember(kind, key@, account@, true, at),
            result is Ok <==> !old(self)@.failed,
    {
        let at: u64 = now();
        self.remember_at(kind, key, account, true, at)
    }
}

proof fn lemma_oldest_exists(map: Bindings)
    requires
        map.dom().finite(),
        map.dom().len() > 0,
    ensures
        exists|key: Seq<char>| is_oldest(map, key),
    decreases map.dom().len(),
{
    let any = map.dom().choose();
    assert(map.dom().contains(any));
    let rest = map.remove(any);
    assert(rest.dom() =~= map.dom().remove(any));
    if rest.dom().len() == 0 {
        assert(is_oldest(map, any)) by {
            assert forall|other: Seq<char>| #[trigger] map.contains_key(other) implies other
                == any by {
                if other != any {
                    assert(rest.dom().contains(other));
                    assert(rest.dom() =~= Set::empty());
                }
            }
        }
    } else {
        lemma_oldest_exists(rest);
        let first = choose|key: Seq<char>| is_oldest(rest, key);
        crate::text::before_is_total(any, first);
        assert(rest.contains_key(first));
        let winner = if map[any].at < map[first].at || (map[any].at == map[first].at
            && crate::text::before(any, first)) {
            any
        } else {
            first
        };
        assert(is_oldest(map, winner)) by {
            assert forall|other: Seq<char>| #[trigger] map.contains_key(other) implies map[winner].at
                < map[other].at || (map[winner].at == map[other].at && (winner == other
                || crate::text::before(winner, other))) by {
                if other != any {
                    assert(rest.contains_key(other));
                    if winner == any && map[any].at == map[first].at && map[first].at
                        == map[other].at && other != first {
                        crate::text::before_is_transitive(any, first, other);
                    }
                }
            }
        }
    }
}

pub(crate) proof fn lemma_room(map: Bindings, now: u64)
    requires
        map.dom().finite(),
        map.dom().len() <= LIMIT,
    ensures
        with_room(map, now).dom().finite(),
        with_room(map, now).dom().len() < LIMIT,
        with_room(map, now).submap_of(map),
{
    if map.dom().len() >= LIMIT {
        let current = live_entries(map, now);
        assert(current.dom().subset_of(map.dom()));
        vstd::set_lib::lemma_len_subset(current.dom(), map.dom());
        if current.dom().len() >= LIMIT {
            lemma_oldest_exists(current);
        }
    }
}

/// However much is bound, neither map grows past its limit.
pub proof fn bindings_stay_bounded(
    routing: RoutingView,
    kind: Kind,
    key: Seq<char>,
    account: Seq<char>,
    stored: bool,
    now: u64,
)
    requires
        routing.wf(),
    ensures
        routing.remember(kind, key, account, stored, now).wf(),
{
    insertion_stays_bounded(routing, RecordView { kind, key, account, at: now }, now);
}

/// Taking a record in does not let a map grow past its limit.
pub proof fn insertion_stays_bounded(routing: RoutingView, record: RecordView, now: u64)
    requires
        routing.wf(),
    ensures
        routing.insert(record, now).wf(),
{
    let map = routing.of(record.kind);
    lemma_room(map, now);
    let entry = EntryView { account: record.account, at: record.at };
    let after = with_entry(map, record.key, entry, now);
    if map.contains_key(record.key) {
        assert(after.dom() =~= map.dom());
    } else {
        assert(after.dom() =~= with_room(map, now).dom().insert(record.key));
    }
}

/// A binding that was written is read back, from the moment it was made. (At the last moment that
/// the clock can show, a new binding has already expired.)
pub proof fn binding_is_read_back(
    routing: RoutingView,
    kind: Kind,
    key: Seq<char>,
    account: Seq<char>,
    now: u64,
)
    requires
        !routing.failed,
        now < u64::MAX,
    ensures
        routing.remember(kind, key, account, true, now).get(kind, key, now) == Some(account),
{
}

/// Binding one key leaves what other keys are bound to as it was, or, where the limit is reached,
/// takes it out; it never rebinds another key.
pub proof fn other_bindings_are_kept(
    routing: RoutingView,
    kind: Kind,
    key: Seq<char>,
    account: Seq<char>,
    stored: bool,
    now: u64,
    other_kind: Kind,
    other: Seq<char>,
    at: u64,
)
    requires
        routing.wf(),
        other_kind != kind || other != key,
    ensures
        ({
            let before = routing.get(other_kind, other, at);
            let after = routing.remember(kind, key, account, stored, now).get(
                other_kind,
                other,
                at,
            );
            after == before || after is None
        }),
        stored && (other_kind != kind || routing.of(kind).dom().len() < LIMIT) ==> routing.get(
            other_kind,
            other,
            at,
        ) == routing.remember(kind, key, account, stored, now).get(other_kind, other, at),
{
    lemma_room(routing.of(kind), now);
    let rest = with_room(routing.of(kind), now);
    assert(rest.contains_key(other) ==> rest[other] == routing.of(kind)[other]);
}

/// A failed write stops all routing, and nothing that follows starts it again.
pub proof fn failed_write_blocks_routing(
    routing: RoutingView,
    kind: Kind,
    key: Seq<char>,
    account: Seq<char>,
    now: u64,
    later_kind: Kind,
    later_key: Seq<char>,
    later_account: Seq<char>,
    stored: bool,
    at: u64,
)
    requires
        !routing.unchanged(kind, key, account, now),
    ensures
        ({
            let after = routing.remember(kind, key, account, false, now);
            &&& after.failed
            &&& after.get(later_kind, later_key, at) is None
            &&& after.remember(later_kind, later_key, later_account, stored, at) == after
        }),
{
}

/// A binding lives for a day from when it was written. Binding a key writes it, unless it was
/// bound to the same account less than a minute ago.
pub proof fn binding_lives_for_a_day(
    routing: RoutingView,
    kind: Kind,
    key: Seq<char>,
    account: Seq<char>,
    now: u64,
    at: u64,
)
    requires
        !routing.failed,
    ensures
        ({
            let after = routing.remember(kind, key, account, true, now);
            let written = after.of(kind)[key].at;
            &&& after.get(kind, key, at) == if at < later(written, TTL) {
                Some(account)
            } else {
                None
            }
            &&& !routing.unchanged(kind, key, account, now) ==> written == now
            &&& routing.unchanged(kind, key, account, now) ==> written == routing.of(kind)[key].at
                && now < later(written, REFRESH)
        }),
{
}

/// A binding is gone a day after it was made.
pub proof fn binding_expires(routing: RoutingView, kind: Kind, key: Seq<char>, at: u64)
    requires
        routing.of(kind).contains_key(key),
        at >= routing.of(kind)[key].at + TTL,
    ensures
        routing.get(kind, key, at) is None,
{
}

/// A binding is read for a day, 86,400 seconds, from when it was written.
pub proof fn binding_is_read_for_a_day(
    routing: RoutingView,
    kind: Kind,
    key: Seq<char>,
    account: Seq<char>,
    now: u64,
    at: u64,
)
    requires
        !routing.failed,
        !routing.of(kind).contains_key(key),
        now + 86_400 <= u64::MAX,
    ensures
        routing.remember(kind, key, account, true, now).get(kind, key, at) == Some(account)
            <==> at < now + 86_400,
        at >= now + 86_400 ==> routing.remember(kind, key, account, true, now).get(kind, key, at)
            is None,
{
}

/// A binding that is used again is written again after a minute, and at once where it moves to
/// another account; before that it keeps its time.
pub proof fn binding_is_renewed_after_a_minute(
    routing: RoutingView,
    kind: Kind,
    key: Seq<char>,
    account: Seq<char>,
    now: u64,
)
    requires
        !routing.failed,
        routing.of(kind).contains_key(key),
        routing.of(kind)[key].at + 60 <= u64::MAX,
    ensures
        ({
            let before = routing.of(kind)[key];
            let after = routing.remember(kind, key, account, true, now).of(kind)[key];
            &&& before.account == account && now < before.at + 60 ==> after == before
            &&& before.account != account || now >= before.at + 60 ==> after == (EntryView {
                account,
                at: now,
            })
        }),
{
}

/// Up to 10,000 bindings of a kind are held. While there are fewer, none gives way; beyond that those
/// that have expired go first, and of live ones only the oldest.
pub proof fn oldest_binding_gives_way(
    routing: RoutingView,
    kind: Kind,
    key: Seq<char>,
    account: Seq<char>,
    now: u64,
    gone: Seq<char>,
    other: Seq<char>,
)
    requires
        routing.wf(),
        !routing.failed,
        routing.of(kind).contains_key(gone),
        !routing.remember(kind, key, account, true, now).of(kind).contains_key(gone),
    ensures
        ({
            let before = routing.of(kind);
            let after = routing.remember(kind, key, account, true, now).of(kind);
            &&& before.dom().len() == 10_000
            &&& !before.contains_key(key)
            &&& live(before[gone], now) && other != key && after.contains_key(other)
                ==> before.contains_key(other) && before[gone].at <= before[other].at && live(
                before[other],
                now,
            )
        }),
{
    let before = routing.of(kind);
    let current = live_entries(before, now);
    assert(current.dom().subset_of(before.dom()));
    vstd::set_lib::lemma_len_subset(current.dom(), before.dom());
    if current.dom().len() >= LIMIT {
        lemma_oldest_exists(current);
        let oldest = choose|key: Seq<char>| is_oldest(current, key);
        assert(is_oldest(current, oldest));
        if other != key && current.contains_key(other) {
            assert(current[other] == before[other]);
        }
    }
}

/// Time is counted up to the greatest number that there is.
pub proof fn time_is_counted_up(at: u64, seconds: u64)
    ensures
        at + seconds <= u64::MAX ==> later(at, seconds) == at + seconds,
        at + seconds > u64::MAX ==> later(at, seconds) == u64::MAX,
{
}

/// The journal is written anew past 4 MiB and is not read past 8 MiB.
pub proof fn journal_sizes()
    ensures
        COMPACT_BYTES == 4 * 1024 * 1024,
        JOURNAL_LIMIT == 8 * 1024 * 1024,
{
}

/// A digest is 43 letters of the alphabet for URLs: capitals, small letters, digits, hyphen and
/// underscore.
pub proof fn digests_are_43_letters(text: Seq<char>, i: int)
    ensures
        valid_binding(text) ==> text.len() == 43,
        valid_binding(text) && 0 <= i < text.len() ==> ('A' <= text[i] && text[i] <= 'Z') || ('a'
            <= text[i] && text[i] <= 'z') || ('0' <= text[i] && text[i] <= '9') || text[i] == '-'
            || text[i] == '_',
        text.len() == 43 && (forall|k: int|
            0 <= k < text.len() ==> {
                let letter = #[trigger] text[k];
                ('A' <= letter && letter <= 'Z') || ('a' <= letter && letter <= 'z') || ('0'
                    <= letter && letter <= '9') || letter == '-' || letter == '_'
            }) ==> valid_binding(text),
{
    if valid_binding(text) && 0 <= i < text.len() {
        assert(crate::codec::is_letter(text[i]));
    }
}

/// The names of the two kinds of bindings.
pub proof fn kinds_are_named()
    ensures
        kind_name(Kind::Session) == "session"@,
        kind_name(Kind::Response) == "response"@,
        !empty_routing(true).failed,
        empty_routing(true).persistent,
        !empty_routing(false).persistent,
        empty_routing(true).sessions.dom() =~= Set::empty(),
        empty_routing(true).responses.dom() =~= Set::empty(),
{
}

} // verus!
