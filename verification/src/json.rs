//! JSON values as the library reads them.
use crate::level::Level;
use crate::text::same;
use vstd::prelude::*;
use vstd::string::*;

verus! {

/// `serde_json::Value`, from which a value is taken over.
#[verifier::external_type_specification]
#[verifier::external_body]
pub struct ExValue(serde_json::Value);

/// A JSON number: as an unsigned and as a signed integer where it is one, and as a double.
#[derive(Clone, Copy, Debug, PartialEq, Eq)]
pub struct Number {
    pub unsigned: Option<u64>,
    pub signed: Option<i64>,
    pub level: Option<Level>,
}

/// A JSON value. The names of an object's members differ from each other.
#[derive(Debug)]
pub enum Json {
    Null,
    Bool(bool),
    Number(Number),
    Text(String),
    List(Vec<Json>),
    Object(Vec<(String, Json)>),
}

/// What a JSON value holds.
pub enum JsonView {
    Null,
    Bool(bool),
    Number(Number),
    Text(Seq<char>),
    List(Seq<JsonView>),
    Object(Seq<(Seq<char>, JsonView)>),
}

impl View for Json {
    type V = JsonView;

    open spec fn view(&self) -> JsonView
        decreases self,
    {
        match *self {
            Json::Null => JsonView::Null,
            Json::Bool(value) => JsonView::Bool(value),
            Json::Number(number) => JsonView::Number(number),
            Json::Text(text) => JsonView::Text(text@),
            Json::List(items) => JsonView::List(
                Seq::new(
                    items@.len(),
                    |i: int|
                        if 0 <= i < items@.len() {
                            items@[i].view()
                        } else {
                            JsonView::Null
                        },
                ),
            ),
            Json::Object(members) => JsonView::Object(
                Seq::new(
                    members@.len(),
                    |i: int|
                        if 0 <= i < members@.len() {
                            (members@[i].0@, members@[i].1.view())
                        } else {
                            (Seq::empty(), JsonView::Null)
                        },
                ),
            ),
        }
    }
}

/// The value of the first member with this name.
pub open spec fn first_member(members: Seq<(Seq<char>, JsonView)>, name: Seq<char>) -> Option<
    JsonView,
>
    decreases members.len(),
{
    if members.len() == 0 {
        None
    } else if members[0].0 == name {
        Some(members[0].1)
    } else {
        first_member(members.drop_first(), name)
    }
}

impl JsonView {
    /// The member of an object with this name.
    pub open spec fn member(self, name: Seq<char>) -> Option<JsonView> {
        match self {
            JsonView::Object(members) => first_member(members, name),
            _ => None,
        }
    }

    /// The value that two names lead to.
    pub open spec fn inner(self, outer: Seq<char>, name: Seq<char>) -> Option<JsonView> {
        match self.member(outer) {
            Some(value) => value.member(name),
            None => None,
        }
    }

    pub open spec fn text(self) -> Option<Seq<char>> {
        match self {
            JsonView::Text(text) => Some(text),
            _ => None,
        }
    }

    pub open spec fn unsigned(self) -> Option<u64> {
        match self {
            JsonView::Number(number) => number.unsigned,
            _ => None,
        }
    }

    pub open spec fn signed(self) -> Option<i64> {
        match self {
            JsonView::Number(number) => number.signed,
            _ => None,
        }
    }

    pub open spec fn level(self) -> Option<Level> {
        match self {
            JsonView::Number(number) => number.level,
            _ => None,
        }
    }

    pub open spec fn boolean(self) -> Option<bool> {
        match self {
            JsonView::Bool(value) => Some(value),
            _ => None,
        }
    }

    pub open spec fn items(self) -> Option<Seq<JsonView>> {
        match self {
            JsonView::List(items) => Some(items),
            _ => None,
        }
    }

    /// The name that a value gives as one of several: a text, or an object with one member of that
    /// name and nothing in it.
    pub open spec fn variant(self) -> Option<Seq<char>> {
        match self {
            JsonView::Text(name) => Some(name),
            JsonView::Object(members) => if members.len() == 1 && members[0].1 == JsonView::Null {
                Some(members[0].0)
            } else {
                None
            },
            _ => None,
        }
    }

    /// The text of a member.
    pub open spec fn member_text(self, name: Seq<char>) -> Option<Seq<char>> {
        match self.member(name) {
            Some(value) => value.text(),
            None => None,
        }
    }

    /// The unsigned integer of a member.
    pub open spec fn member_unsigned(self, name: Seq<char>) -> Option<u64> {
        match self.member(name) {
            Some(value) => value.unsigned(),
            None => None,
        }
    }

    /// The signed integer of a member.
    pub open spec fn member_signed(self, name: Seq<char>) -> Option<i64> {
        match self.member(name) {
            Some(value) => value.signed(),
            None => None,
        }
    }

    /// The truth value of a member.
    pub open spec fn member_boolean(self, name: Seq<char>) -> Option<bool> {
        match self.member(name) {
            Some(value) => value.boolean(),
            None => None,
        }
    }
}

/// What members hold.
pub open spec fn member_views(members: Seq<(String, Json)>) -> Seq<(Seq<char>, JsonView)> {
    members.map_values(|member: (String, Json)| (member.0@, member.1@))
}

/// The view of a borrowed value that may be missing.
pub open spec fn seen(value: Option<&Json>) -> Option<JsonView> {
    match value {
        Some(inner) => Some(inner@),
        None => None,
    }
}

/// The view of a borrowed text that may be missing.
pub open spec fn read(text: Option<&str>) -> Option<Seq<char>> {
    match text {
        Some(inner) => Some(inner@),
        None => None,
    }
}

/// What `serde_json::from_slice` reads from bytes: `None` where they are not one JSON value.
pub uninterp spec fn json_value(bytes: Seq<u8>) -> Option<JsonView>;

/// A hexadecimal digit.
pub open spec fn hex_digit(value: int) -> char {
    if value < 10 {
        ('0' as u32 + value) as char
    } else {
        ('a' as u32 + (value - 10)) as char
    }
}

/// A character as it stands in a JSON string: quotes, backslashes and control characters are
/// escaped.
pub open spec fn escaped(letter: char) -> Seq<char> {
    if letter == '"' || letter == '\\' {
        seq!['\\', letter]
    } else if letter == '\u{8}' {
        seq!['\\', 'b']
    } else if letter == '\t' {
        seq!['\\', 't']
    } else if letter == '\n' {
        seq!['\\', 'n']
    } else if letter == '\u{c}' {
        seq!['\\', 'f']
    } else if letter == '\r' {
        seq!['\\', 'r']
    } else if (letter as u32) < 32 {
        let code = letter as int;
        seq!['\\', 'u', '0', '0', hex_digit(code / 16), hex_digit(code % 16)]
    } else {
        seq![letter]
    }
}

/// The characters of a text as they stand in a JSON string.
pub open spec fn escaped_text(text: Seq<char>) -> Seq<char>
    decreases text.len(),
{
    if text.len() == 0 {
        Seq::empty()
    } else {
        escaped(text[0]) + escaped_text(text.drop_first())
    }
}

/// A text as a JSON string.
pub open spec fn json_string(text: Seq<char>) -> Seq<char> {
    seq!['"'] + escaped_text(text) + seq!['"']
}

/// The JSON text of a string.
///
/// Calls `serde_json::to_string` on a `str`, which does not fail. It puts the text between quotes
/// and escapes quotes, backslashes and control characters; of the latter five have an escape of
/// their own, the others are written by their number.
#[verifier::external_body]
pub(crate) fn quoted(text: &str) -> (json: String)
    ensures
        json@ == json_string(text@),
{
    serde_json::to_string(text).unwrap_or_default()
}

proof fn lemma_escaped(c: char, d: char, x: Seq<char>, y: Seq<char>)
    requires
        escaped(c) + x == escaped(d) + y,
    ensures
        c == d,
        x == y,
{
    let s = escaped(c) + x;
    let t = escaped(d) + y;
    assert(s[0] == escaped(c)[0]);
    assert(t[0] == escaped(d)[0]);
    if s[0] == '\\' {
        assert(s[1] == escaped(c)[1]);
        assert(t[1] == escaped(d)[1]);
        if s[1] == 'u' {
            assert(s[4] == escaped(c)[4] && s[5] == escaped(c)[5]);
            assert(t[4] == escaped(d)[4] && t[5] == escaped(d)[5]);
            assert(c as int / 16 == d as int / 16);
            assert(c as int % 16 == d as int % 16);
        }
    }
    assert(c == d);
    assert(s.skip(escaped(c).len() as int) =~= x);
    assert(t.skip(escaped(c).len() as int) =~= y);
}

proof fn lemma_escaped_text(a: Seq<char>, b: Seq<char>, x: Seq<char>, y: Seq<char>)
    requires
        escaped_text(a) + (seq!['"'] + x) == escaped_text(b) + (seq!['"'] + y),
    ensures
        a == b,
        x == y,
    decreases a.len(),
{
    let more = seq!['"'] + x;
    let rest = seq!['"'] + y;
    let s = escaped_text(a) + more;
    let t = escaped_text(b) + rest;
    if a.len() > 0 {
        assert(s =~= escaped(a[0]) + (escaped_text(a.drop_first()) + more));
        assert(s[0] == escaped(a[0])[0]);
    } else {
        assert(s =~= more);
        assert(s[0] == '"');
    }
    if b.len() > 0 {
        assert(t =~= escaped(b[0]) + (escaped_text(b.drop_first()) + rest));
        assert(t[0] == escaped(b[0])[0]);
    } else {
        assert(t =~= rest);
        assert(t[0] == '"');
    }
    if a.len() > 0 {
        lemma_escaped(
            a[0],
            b[0],
            escaped_text(a.drop_first()) + more,
            escaped_text(b.drop_first()) + rest,
        );
        lemma_escaped_text(a.drop_first(), b.drop_first(), x, y);
        assert(a =~= seq![a[0]] + a.drop_first());
        assert(b =~= seq![b[0]] + b.drop_first());
    } else {
        assert(a =~= b);
        assert(more.drop_first() =~= x);
        assert(rest.drop_first() =~= y);
    }
}

/// A JSON string tells where it ends: from what follows it the text can be told, and what follows.
pub proof fn strings_are_told_apart(a: Seq<char>, b: Seq<char>, x: Seq<char>, y: Seq<char>)
    requires
        json_string(a) + x == json_string(b) + y,
    ensures
        a == b,
        x == y,
{
    let s = json_string(a) + x;
    let t = json_string(b) + y;
    assert(s.drop_first() =~= escaped_text(a) + (seq!['"'] + x));
    assert(t.drop_first() =~= escaped_text(b) + (seq!['"'] + y));
    lemma_escaped_text(a, b, x, y);
}

impl Json {
    /// The library's form of a value of `serde_json`: variant by variant, member by member. A
    /// number is asked for its three readings, the double by its bit pattern.
    #[verifier::external_body]
    fn from_value(value: serde_json::Value) -> Json {
        match value {
            serde_json::Value::Null => Json::Null,
            serde_json::Value::Bool(value) => Json::Bool(value),
            serde_json::Value::Number(number) => Json::Number(Number {
                unsigned: number.as_u64(),
                signed: number.as_i64(),
                level: number.as_f64().map(|share| Level { bits: share.to_bits() }),
            }),
            serde_json::Value::String(text) => Json::Text(text),
            serde_json::Value::Array(items) => Json::List(items.into_iter().map(Json::from_value).collect()),
            serde_json::Value::Object(members) => Json::Object(
                members.into_iter().map(|(name, value)| (name, Json::from_value(value))).collect(),
            ),
        }
    }

    /// Calls `serde_json::from_slice` and takes its value over member by member. What it reads is
    /// named: it depends on the bytes alone. Of the value itself nothing is claimed.
    #[verifier::external_body]
    fn from_slice(bytes: &[u8]) -> (json: Option<Json>)
        ensures
            json is Some <==> json_value(bytes@) is Some,
            json matches Some(value) ==> json_value(bytes@) == Some(value@),
    {
        serde_json::from_slice::<serde_json::Value>(bytes).ok().map(Json::from_value)
    }

    /// Reads one JSON value from bytes.
    pub fn parse(bytes: &[u8]) -> (json: Option<Json>)
        ensures
            json is Some <==> json_value(bytes@) is Some,
            json matches Some(value) ==> json_value(bytes@) == Some(value@),
    {
        Json::from_slice(bytes)
    }

    /// The member of an object with this name.
    pub fn get(&self, name: &str) -> (value: Option<&Json>)
        ensures
            seen(value) == self@.member(name@),
    {
        match self {
            Json::Object(members) => {
                proof {
                    reveal_with_fuel(<Json as View>::view, 2);
                }
                let ghost all = match self@ {
                    JsonView::Object(seq) => seq,
                    _ => Seq::empty(),
                };
                let mut i: usize = 0;
                assert(all.skip(0) =~= all);
                while i < members.len()
                    invariant
                        i <= members@.len(),
                        all.len() == members@.len(),
                        forall|k: int|
                            0 <= k < all.len() ==> #[trigger] all[k] == (
                            members@[k].0@, members@[k].1@),
                        self@ == JsonView::Object(all),
                        first_member(all, name@) == first_member(all.skip(i as int), name@),
                    decreases members@.len() - i,
                {
                    assert(all.skip(i as int)[0] == all[i as int]);
                    if same(members[i].0.as_str(), name) {
                        return Some(&members[i].1);
                    }
                    assert(all.skip(i as int).drop_first() =~= all.skip(i + 1));
                    i = i + 1;
                }
                None
            },
            _ => None,
        }
    }

    /// The value that two names lead to.
    pub fn pointer(&self, outer: &str, name: &str) -> (value: Option<&Json>)
        ensures
            seen(value) == self@.inner(outer@, name@),
    {
        match self.get(outer) {
            Some(value) => value.get(name),
            None => None,
        }
    }

    pub fn as_str(&self) -> (text: Option<&str>)
        ensures
            read(text) == self@.text(),
    {
        match self {
            Json::Text(text) => Some(text.as_str()),
            _ => None,
        }
    }

    pub fn as_u64(&self) -> (number: Option<u64>)
        ensures
            number == self@.unsigned(),
    {
        match self {
            Json::Number(number) => number.unsigned,
            _ => None,
        }
    }

    pub fn as_i64(&self) -> (number: Option<i64>)
        ensures
            number == self@.signed(),
    {
        match self {
            Json::Number(number) => number.signed,
            _ => None,
        }
    }

    /// The number as a double.
    pub fn as_level(&self) -> (number: Option<Level>)
        ensures
            number == self@.level(),
    {
        match self {
            Json::Number(number) => number.level,
            _ => None,
        }
    }

    pub fn as_bool(&self) -> (value: Option<bool>)
        ensures
            value == self@.boolean(),
    {
        match self {
            Json::Bool(value) => Some(*value),
            _ => None,
        }
    }

    pub fn as_array(&self) -> (items: Option<&Vec<Json>>)
        ensures
            items is Some <==> self@.items() is Some,
            items matches Some(list) ==> self@.items() == Some(
                list@.map_values(|item: Json| item@),
            ),
    {
        match self {
            Json::List(items) => {
                proof {
                    reveal_with_fuel(<Json as View>::view, 2);
                }
                assert(self@.items()->Some_0 =~= items@.map_values(|item: Json| item@));
                Some(items)
            },
            _ => None,
        }
    }

    /// The members of an object, in the order in which they stand.
    pub fn as_object(&self) -> (members: Option<&Vec<(String, Json)>>)
        ensures
            members is Some <==> self@ is Object,
            members matches Some(list) ==> self@ == JsonView::Object(member_views(list@)),
    {
        match self {
            Json::Object(members) => {
                proof {
                    reveal_with_fuel(<Json as View>::view, 2);
                }
                assert(self@->Object_0 =~= member_views(members@));
                Some(members)
            },
            _ => None,
        }
    }

    /// The name that the value gives as one of several.
    pub fn as_variant(&self) -> (name: Option<&str>)
        ensures
            read(name) == self@.variant(),
    {
        match self.as_object() {
            Some(members) => if members.len() == 1 {
                assert(member_views(members@)[0] == (members@[0].0@, members@[0].1@));
                match &members[0].1 {
                    Json::Null => Some(members[0].0.as_str()),
                    _ => None,
                }
            } else {
                None
            },
            None => self.as_str(),
        }
    }

    pub fn is_object(&self) -> (yes: bool)
        ensures
            yes == (self@ is Object),
    {
        match self {
            Json::Object(_) => true,
            _ => false,
        }
    }

    /// The text of a member.
    pub fn text_at(&self, name: &str) -> (text: Option<&str>)
        ensures
            read(text) == self@.member_text(name@),
    {
        match self.get(name) {
            Some(value) => value.as_str(),
            None => None,
        }
    }

    /// The unsigned integer of a member.
    pub fn u64_at(&self, name: &str) -> (number: Option<u64>)
        ensures
            number == self@.member_unsigned(name@),
    {
        match self.get(name) {
            Some(value) => value.as_u64(),
            None => None,
        }
    }

    /// The signed integer of a member.
    pub fn i64_at(&self, name: &str) -> (number: Option<i64>)
        ensures
            number == self@.member_signed(name@),
    {
        match self.get(name) {
            Some(value) => value.as_i64(),
            None => None,
        }
    }

    /// The truth value of a member.
    pub fn bool_at(&self, name: &str) -> (value: Option<bool>)
        ensures
            value == self@.member_boolean(name@),
    {
        match self.get(name) {
            Some(value) => value.as_bool(),
            None => None,
        }
    }
}

/// The member of an object is the value that stands first under the name; a value that is no object
/// has none.
pub proof fn member_stands_first_under_its_name(value: JsonView, name: Seq<char>)
    ensures
        match (value, value.member(name)) {
            (JsonView::Object(members), Some(found)) => exists|k: int|
                0 <= k < members.len() && (#[trigger] members[k]) == (name, found) && forall|j: int|
                    0 <= j < k ==> (#[trigger] members[j]).0 != name,
            (JsonView::Object(members), None) => forall|j: int|
                0 <= j < members.len() ==> (#[trigger] members[j]).0 != name,
            (_, found) => found is None,
        },
{
    if let JsonView::Object(members) = value {
        lemma_first_member(members, name);
    }
}

proof fn lemma_first_member(members: Seq<(Seq<char>, JsonView)>, name: Seq<char>)
    ensures
        match first_member(members, name) {
            Some(found) => exists|k: int|
                0 <= k < members.len() && (#[trigger] members[k]) == (name, found) && forall|j: int|
                    0 <= j < k ==> (#[trigger] members[j]).0 != name,
            None => forall|j: int| 0 <= j < members.len() ==> (#[trigger] members[j]).0 != name,
        },
    decreases members.len(),
{
    if members.len() > 0 {
        let rest = members.drop_first();
        lemma_first_member(rest, name);
        if members[0].0 == name {
            assert(members[0] == (name, first_member(members, name)->Some_0));
        } else {
            match first_member(rest, name) {
                Some(found) => {
                    let k = choose|k: int|
                        0 <= k < rest.len() && (#[trigger] rest[k]) == (name, found) && forall|
                            j: int,
                        |
                            0 <= j < k ==> (#[trigger] rest[j]).0 != name;
                    assert(members[k + 1] == (name, found));
                    assert forall|j: int| 0 <= j < k + 1 implies (#[trigger] members[j]).0
                        != name by {
                        if j > 0 {
                            assert(rest[j - 1] == members[j]);
                        }
                    }
                },
                None => {
                    assert forall|j: int| 0 <= j < members.len() implies (#[trigger] members[j]).0
                        != name by {
                        if j > 0 {
                            assert(rest[j - 1] == members[j]);
                        }
                    }
                },
            }
        }
    }
}

/// A value is read as what it is, and as nothing else.
pub proof fn values_are_read_as_what_they_are(value: JsonView)
    ensures
        value.text() == match value {
            JsonView::Text(text) => Some(text),
            _ => None,
        },
        value.unsigned() == match value {
            JsonView::Number(number) => number.unsigned,
            _ => None,
        },
        value.signed() == match value {
            JsonView::Number(number) => number.signed,
            _ => None,
        },
        value.level() == match value {
            JsonView::Number(number) => number.level,
            _ => None,
        },
        value.boolean() == match value {
            JsonView::Bool(yes) => Some(yes),
            _ => None,
        },
        value.items() == match value {
            JsonView::List(items) => Some(items),
            _ => None,
        },
{
}

/// Where a member is a text, a number or a truth value, it is read as that; where it is missing or
/// something else, it is not.
pub proof fn members_are_read_as_what_they_are(value: JsonView, name: Seq<char>)
    ensures
        match value.member(name) {
            Some(JsonView::Number(number)) => value.member_unsigned(name) == number.unsigned
                && value.member_signed(name) == number.signed,
            _ => value.member_unsigned(name) is None && value.member_signed(name) is None,
        },
        match value.member(name) {
            Some(JsonView::Text(text)) => value.member_text(name) == Some(text),
            _ => value.member_text(name) is None,
        },
        match value.member(name) {
            Some(JsonView::Bool(yes)) => value.member_boolean(name) == Some(yes),
            _ => value.member_boolean(name) is None,
        },
{
}

/// A JSON string stands between quotes; in it a quote and a backslash have a backslash before them,
/// backspace, tab, line feed, form feed and carriage return are a backslash and their letter, and any
/// other control character is a backslash, `u` and four digits. All else stands as it is.
pub proof fn strings_are_escaped(text: Seq<char>, letter: char)
    ensures
        json_string(Seq::empty()) == seq!['"', '"'],
        escaped_text(text.push(letter)) == escaped_text(text) + escaped(letter),
        json_string(text).len() >= 2,
        json_string(text)[0] == '"',
        json_string(text).last() == '"',
        json_string(text).subrange(1, json_string(text).len() - 1) == escaped_text(text),
        letter == '"' ==> escaped(letter) == seq!['\\', '"'],
        letter == '\\' ==> escaped(letter) == seq!['\\', '\\'],
        letter == '\u{8}' ==> escaped(letter) == seq!['\\', 'b'],
        letter == '\t' ==> escaped(letter) == seq!['\\', 't'],
        letter == '\n' ==> escaped(letter) == seq!['\\', 'n'],
        letter == '\u{c}' ==> escaped(letter) == seq!['\\', 'f'],
        letter == '\r' ==> escaped(letter) == seq!['\\', 'r'],
        letter as u32 >= 32 && letter != '"' && letter != '\\' ==> escaped(letter) == seq![letter],
        letter == '\u{1}' ==> escaped(letter) == seq!['\\', 'u', '0', '0', '0', '1'],
        letter == '\u{1f}' ==> escaped(letter) == seq!['\\', 'u', '0', '0', '1', 'f'],
{
    lemma_escaped_push(text, letter);
    assert(json_string(Seq::empty()) =~= seq!['"', '"']);
    assert(json_string(text).subrange(1, json_string(text).len() - 1) =~= escaped_text(text));
}

proof fn lemma_escaped_push(text: Seq<char>, letter: char)
    ensures
        escaped_text(text.push(letter)) == escaped_text(text) + escaped(letter),
    decreases text.len(),
{
    let all = text.push(letter);
    if text.len() == 0 {
        assert(all.drop_first() =~= Seq::empty());
        assert(all[0] == letter);
        assert(escaped_text(all.drop_first()) == Seq::<char>::empty());
        assert(escaped_text(all) =~= escaped_text(text) + escaped(letter));
    } else {
        assert(all[0] == text[0]);
        assert(all.drop_first() =~= text.drop_first().push(letter));
        lemma_escaped_push(text.drop_first(), letter);
        assert(escaped_text(all) =~= escaped_text(text) + escaped(letter));
    }
}

/// The sixteen digits: `0` to `9`, and `a` to `f`.
pub proof fn hexadecimal_digits(value: int)
    requires
        0 <= value < 16,
    ensures
        value < 10 ==> hex_digit(value) as int == '0' as int + value,
        value >= 10 ==> hex_digit(value) as int == 'a' as int + value - 10,
{
}

} // verus!
