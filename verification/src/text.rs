//! Text: comparison, searching, trimming, and the decimal and padded forms that reports use.
use vstd::prelude::*;
use vstd::string::*;

verus! {

/// `str::eq`: two texts are equal when they hold the same characters.
pub assume_specification[ <str as PartialEq>::eq ](left: &str, right: &str) -> (yes: bool)
    ensures
        yes == (left@ == right@),
;

/// `String::push`: the character goes to the end.
pub assume_specification[ String::push ](text: &mut String, letter: char)
    ensures
        final(text)@ == old(text)@.push(letter),
;

/// The UTF-8 bytes of a text.
pub open spec fn utf8(text: Seq<char>) -> Seq<u8> {
    vstd::utf8::encode_utf8(text)
}

/// Lexicographic order on bytes.
pub open spec fn bytes_less(a: Seq<u8>, b: Seq<u8>) -> bool
    decreases a.len(),
{
    if b.len() == 0 {
        false
    } else if a.len() == 0 {
        true
    } else if a[0] != b[0] {
        a[0] < b[0]
    } else {
        bytes_less(a.drop_first(), b.drop_first())
    }
}

/// The order of texts: that of their UTF-8 bytes.
pub open spec fn before(a: Seq<char>, b: Seq<char>) -> bool {
    bytes_less(utf8(a), utf8(b))
}

proof fn lemma_bytes_less_total(a: Seq<u8>, b: Seq<u8>)
    ensures
        bytes_less(a, b) || bytes_less(b, a) || a == b,
        !(bytes_less(a, b) && bytes_less(b, a)),
        a == b ==> !bytes_less(a, b),
    decreases a.len(),
{
    if a.len() > 0 && b.len() > 0 && a[0] == b[0] {
        lemma_bytes_less_total(a.drop_first(), b.drop_first());
        if a.drop_first() == b.drop_first() {
            assert(a =~= seq![a[0]] + a.drop_first());
            assert(b =~= seq![b[0]] + b.drop_first());
        }
    } else if a.len() == 0 && b.len() == 0 {
        assert(a =~= b);
    }
}

proof fn lemma_bytes_less_transitive(a: Seq<u8>, b: Seq<u8>, c: Seq<u8>)
    requires
        bytes_less(a, b),
        bytes_less(b, c),
    ensures
        bytes_less(a, c),
    decreases a.len(),
{
    if a.len() > 0 && b.len() > 0 && c.len() > 0 && a[0] == b[0] && b[0] == c[0] {
        lemma_bytes_less_transitive(a.drop_first(), b.drop_first(), c.drop_first());
    }
}

/// The order of texts is a strict total order: of two different texts exactly one comes first,
/// and no text comes before itself.
pub proof fn before_is_total(a: Seq<char>, b: Seq<char>)
    ensures
        before(a, b) || before(b, a) || a == b,
        !(before(a, b) && before(b, a)),
        !before(a, a),
{
    lemma_bytes_less_total(utf8(a), utf8(b));
    lemma_bytes_less_total(utf8(a), utf8(a));
    vstd::utf8::encode_utf8_decode_utf8(a);
    vstd::utf8::encode_utf8_decode_utf8(b);
}

/// The order of texts is transitive.
pub proof fn before_is_transitive(a: Seq<char>, b: Seq<char>, c: Seq<char>)
    requires
        before(a, b),
        before(b, c),
    ensures
        before(a, c),
{
    lemma_bytes_less_transitive(utf8(a), utf8(b), utf8(c));
}

/// Whether `a` comes before `b`.
pub fn less(a: &str, b: &str) -> (first: bool)
    ensures
        first == before(a@, b@),
{
    let left: &[u8] = a.as_bytes();
    let right: &[u8] = b.as_bytes();
    let mut i: usize = 0;
    assert(left@.skip(0) =~= left@);
    assert(right@.skip(0) =~= right@);
    while i < left.len() && i < right.len()
        invariant
            left@ == utf8(a@),
            right@ == utf8(b@),
            i <= left@.len(),
            i <= right@.len(),
            bytes_less(left@, right@) == bytes_less(left@.skip(i as int), right@.skip(i as int)),
        decreases left@.len() - i,
    {
        if left[i] != right[i] {
            return left[i] < right[i];
        }
        assert(left@.skip(i as int).drop_first() =~= left@.skip(i + 1));
        assert(right@.skip(i as int).drop_first() =~= right@.skip(i + 1));
        i = i + 1;
    }
    i < right.len()
}

/// Whether two texts are the same.
pub fn same(a: &str, b: &str) -> (equal: bool)
    ensures
        equal == (a@ == b@),
{
    a.eq(b)
}

/// The characters of a text.
pub fn chars_of(text: &str) -> (chars: Vec<char>)
    ensures
        chars@ == text@,
{
    let mut chars: Vec<char> = Vec::new();
    for letter in it: text.chars()
        invariant
            chars@ == it.seq().take(it.index()),
    {
        chars.push(letter);
    }
    chars
}

/// The text made of the characters from `from` up to `to`.
pub fn piece(chars: &Vec<char>, from: usize, to: usize) -> (text: String)
    requires
        from <= to <= chars@.len(),
    ensures
        text@ == chars@.subrange(from as int, to as int),
{
    let mut text = String::new();
    let mut i: usize = from;
    while i < to
        invariant
            from <= i <= to <= chars@.len(),
            text@ == chars@.subrange(from as int, i as int),
        decreases to - i,
    {
        text.push(chars[i]);
        assert(chars@.subrange(from as int, i + 1) =~= chars@.subrange(from as int, i as int).push(
            chars@[i as int],
        ));
        i = i + 1;
    }
    text
}

/// Whether `text` starts with `prefix`.
pub fn starts_with(text: &str, prefix: &str) -> (yes: bool)
    ensures
        yes == prefix@.is_prefix_of(text@),
{
    let whole = chars_of(text);
    let head = chars_of(prefix);
    matches_at(&whole, &head, 0)
}

/// Whether `part` stands in `whole` at position `at`.
pub open spec fn stands_at(whole: Seq<char>, part: Seq<char>, at: int) -> bool {
    &&& 0 <= at
    &&& at + part.len() <= whole.len()
    &&& whole.subrange(at, at + part.len()) == part
}

/// Whether `part` stands in `whole` at position `at`.
pub fn matches_at(whole: &Vec<char>, part: &Vec<char>, at: usize) -> (yes: bool)
    ensures
        yes == stands_at(whole@, part@, at as int),
        at == 0 ==> yes == part@.is_prefix_of(whole@),
{
    if at > whole.len() || part.len() > whole.len() - at {
        return false;
    }
    let end: usize = at + part.len();
    let mut i: usize = 0;
    while i < part.len()
        invariant
            i <= part@.len(),
            at + part@.len() == end,
            end <= whole@.len(),
            forall|k: int| 0 <= k < i ==> whole@[at + k] == part@[k],
        decreases part@.len() - i,
    {
        if whole[at + i] != part[i] {
            assert(whole@.subrange(at as int, at + part@.len())[i as int] != part@[i as int]);
            return false;
        }
        i = i + 1;
    }
    assert(whole@.subrange(at as int, at + part@.len()) =~= part@);
    true
}

/// Whether `text` ends with `suffix`.
pub fn ends_with(text: &str, suffix: &str) -> (yes: bool)
    ensures
        yes == suffix@.is_suffix_of(text@),
{
    let whole = chars_of(text);
    let tail = chars_of(suffix);
    if tail.len() > whole.len() {
        return false;
    }
    matches_at(&whole, &tail, whole.len() - tail.len())
}

/// What is left of `text` after `prefix`, where it starts with it.
pub fn strip_prefix(text: &str, prefix: &str) -> (rest: Option<String>)
    ensures
        rest is Some <==> prefix@.is_prefix_of(text@),
        rest matches Some(tail) ==> text@ == prefix@ + tail@,
{
    let whole = chars_of(text);
    let head = chars_of(prefix);
    if !matches_at(&whole, &head, 0) {
        return None;
    }
    let tail = piece(&whole, head.len(), whole.len());
    assert(text@ =~= prefix@ + tail@);
    Some(tail)
}

/// What is left of `text` before `suffix`, where it ends with it.
pub fn strip_suffix(text: &str, suffix: &str) -> (rest: Option<String>)
    ensures
        rest is Some <==> suffix@.is_suffix_of(text@),
        rest matches Some(head) ==> text@ == head@ + suffix@,
{
    let whole = chars_of(text);
    let tail = chars_of(suffix);
    if tail.len() > whole.len() || !matches_at(&whole, &tail, whole.len() - tail.len()) {
        return None;
    }
    let head = piece(&whole, 0, whole.len() - tail.len());
    assert(text@ =~= head@ + suffix@);
    Some(head)
}

/// `at` is the first position where `part` stands in `whole`.
pub open spec fn first_at(whole: Seq<char>, part: Seq<char>, at: int) -> bool {
    &&& stands_at(whole, part, at)
    &&& forall|k: int| 0 <= k < at ==> !#[trigger] stands_at(whole, part, k)
}

/// Whether `part` stands anywhere in `whole`.
pub open spec fn occurs(whole: Seq<char>, part: Seq<char>) -> bool {
    exists|at: int| stands_at(whole, part, at)
}

/// The first position where `part` stands in `whole`.
pub fn find(whole: &Vec<char>, part: &Vec<char>) -> (position: Option<usize>)
    ensures
        position is Some <==> occurs(whole@, part@),
        position matches Some(at) ==> first_at(whole@, part@, at as int),
{
    let mut at: usize = 0;
    loop
        invariant
            at <= whole@.len(),
            forall|k: int| 0 <= k < at ==> !#[trigger] stands_at(whole@, part@, k),
        decreases whole@.len() - at,
    {
        if matches_at(whole, part, at) {
            return Some(at);
        }
        if at == whole.len() {
            assert forall|k: int| !stands_at(whole@, part@, k) by {
                if k > whole@.len() {
                    assert(k + part@.len() > whole@.len());
                }
            }
            return None;
        }
        at = at + 1;
    }
}

/// What follows the first place where `part` stands in `whole`.
pub open spec fn after_first(whole: Seq<char>, part: Seq<char>) -> Option<Seq<char>> {
    if occurs(whole, part) {
        let at = choose|at: int| first_at(whole, part, at);
        Some(whole.skip(at + part.len()))
    } else {
        None
    }
}

/// Where the text that follows the first place of `part` starts.
pub fn find_after(whole: &Vec<char>, part: &Vec<char>) -> (position: Option<usize>)
    ensures
        match position {
            Some(start) => start <= whole@.len() && after_first(whole@, part@) == Some(
                whole@.skip(start as int),
            ),
            None => after_first(whole@, part@) is None,
        },
{
    match find(whole, part) {
        Some(at) => {
            proof {
                let other = choose|other: int| first_at(whole@, part@, other);
                assert(first_at(whole@, part@, at as int));
                assert(first_at(whole@, part@, other));
                if other < at {
                    assert(!stands_at(whole@, part@, other));
                } else if at < other {
                    assert(!stands_at(whole@, part@, at as int));
                }
            }
            let length: usize = whole.len();
            assert(at + part@.len() <= length);
            Some(at + part.len())
        },
        None => None,
    }
}

/// Whether `part` stands anywhere in `text`.
pub fn contains(text: &str, part: &str) -> (yes: bool)
    ensures
        yes == occurs(text@, part@),
{
    find(&chars_of(text), &chars_of(part)).is_some()
}

/// The characters that `char::is_whitespace` accepts: the Unicode property `White_Space`.
pub open spec fn is_space(letter: char) -> bool {
    ||| 0x9 <= letter as u32 <= 0xd
    ||| letter as u32 == 0x20
    ||| letter as u32 == 0x85
    ||| letter as u32 == 0xa0
    ||| letter as u32 == 0x1680
    ||| 0x2000 <= letter as u32 <= 0x200a
    ||| letter as u32 == 0x2028
    ||| letter as u32 == 0x2029
    ||| letter as u32 == 0x202f
    ||| letter as u32 == 0x205f
    ||| letter as u32 == 0x3000
}

fn space(letter: char) -> (yes: bool)
    ensures
        yes == is_space(letter),
{
    let code: u32 = letter as u32;
    (0x9 <= code && code <= 0xd) || code == 0x20 || code == 0x85 || code == 0xa0 || code == 0x1680
        || (0x2000 <= code && code <= 0x200a) || code == 0x2028 || code == 0x2029 || code == 0x202f
        || code == 0x205f || code == 0x3000
}

/// A text without the white space at its two ends.
pub open spec fn trimmed(text: Seq<char>) -> Seq<char>
    decreases text.len(),
{
    if text.len() == 0 {
        text
    } else if is_space(text[0]) {
        trimmed(text.drop_first())
    } else {
        trimmed_end(text)
    }
}

/// A text without the white space at its end.
pub open spec fn trimmed_end(text: Seq<char>) -> Seq<char>
    decreases text.len(),
{
    if text.len() == 0 {
        text
    } else if is_space(text.last()) {
        trimmed_end(text.drop_last())
    } else {
        text
    }
}

/// A text without the white space at its two ends.
pub fn trim(text: &str) -> (rest: String)
    ensures
        rest@ == trimmed(text@),
{
    let chars = chars_of(text);
    let mut from: usize = 0;
    assert(chars@.skip(0) =~= chars@);
    while from < chars.len() && space(chars[from])
        invariant
            from <= chars@.len(),
            trimmed(chars@) == trimmed(chars@.skip(from as int)),
        decreases chars@.len() - from,
    {
        assert(chars@.skip(from as int).drop_first() =~= chars@.skip(from + 1));
        from = from + 1;
    }
    let mut to: usize = chars.len();
    assert(chars@.skip(from as int) =~= chars@.subrange(from as int, to as int));
    if from == chars.len() {
        let rest = String::new();
        assert(rest@ =~= chars@.subrange(from as int, to as int));
        return rest;
    }
    while from < to && space(chars[to - 1])
        invariant
            from <= to <= chars@.len(),
            trimmed(chars@) == trimmed_end(chars@.subrange(from as int, to as int)),
        decreases to,
    {
        assert(chars@.subrange(from as int, to as int).drop_last() =~= chars@.subrange(
            from as int,
            to - 1,
        ));
        to = to - 1;
    }
    piece(&chars, from, to)
}

/// A text without any number of `letter` at its end.
pub open spec fn without_trailing(text: Seq<char>, letter: char) -> Seq<char>
    decreases text.len(),
{
    if text.len() > 0 && text.last() == letter {
        without_trailing(text.drop_last(), letter)
    } else {
        text
    }
}

/// A text without any number of `letter` at its end.
pub fn trim_end_matches(text: &str, letter: char) -> (rest: String)
    ensures
        rest@ == without_trailing(text@, letter),
{
    let chars = chars_of(text);
    let mut to: usize = chars.len();
    assert(chars@.subrange(0, to as int) =~= chars@);
    while to > 0 && chars[to - 1] == letter
        invariant
            to <= chars@.len(),
            without_trailing(chars@, letter) == without_trailing(chars@.subrange(0, to as int), letter),
        decreases to,
    {
        assert(chars@.subrange(0, to as int).drop_last() =~= chars@.subrange(0, to - 1));
        to = to - 1;
    }
    piece(&chars, 0, to)
}

/// The first run of characters that are not white space.
pub open spec fn first_word(text: Seq<char>) -> Option<Seq<char>>
    decreases text.len(),
{
    if text.len() == 0 {
        None
    } else if is_space(text[0]) {
        first_word(text.drop_first())
    } else {
        Some(word_prefix(text))
    }
}

/// The characters up to the first white space.
pub open spec fn word_prefix(text: Seq<char>) -> Seq<char>
    decreases text.len(),
{
    if text.len() == 0 || is_space(text[0]) {
        Seq::empty()
    } else {
        seq![text[0]] + word_prefix(text.drop_first())
    }
}

proof fn lemma_word_prefix(text: Seq<char>, n: int)
    requires
        0 <= n <= text.len(),
        forall|k: int| 0 <= k < n ==> !is_space(#[trigger] text[k]),
        n < text.len() ==> is_space(text[n]),
    ensures
        word_prefix(text) == text.subrange(0, n),
    decreases n,
{
    if n > 0 {
        let rest = text.drop_first();
        assert forall|k: int| 0 <= k < n - 1 implies !is_space(#[trigger] rest[k]) by {
            assert(rest[k] == text[k + 1]);
        }
        lemma_word_prefix(rest, n - 1);
        assert(seq![text[0]] + rest.subrange(0, n - 1) =~= text.subrange(0, n));
    } else {
        assert(text.subrange(0, 0) =~= Seq::<char>::empty());
    }
}

/// The first word of the characters from `from` on.
pub fn first_word_from(chars: &Vec<char>, from: usize) -> (word: Option<String>)
    requires
        from <= chars@.len(),
    ensures
        word is Some <==> first_word(chars@.skip(from as int)) is Some,
        word matches Some(w) ==> Some(w@) == first_word(chars@.skip(from as int)),
{
    let mut start: usize = from;
    while start < chars.len() && space(chars[start])
        invariant
            from <= start <= chars@.len(),
            first_word(chars@.skip(from as int)) == first_word(chars@.skip(start as int)),
        decreases chars@.len() - start,
    {
        assert(chars@.skip(start as int).drop_first() =~= chars@.skip(start + 1));
        start = start + 1;
    }
    if start == chars.len() {
        return None;
    }
    let mut end: usize = start;
    while end < chars.len() && !space(chars[end])
        invariant
            start <= end <= chars@.len(),
            forall|k: int| start <= k < end ==> !is_space(#[trigger] chars@[k]),
        decreases chars@.len() - end,
    {
        end = end + 1;
    }
    proof {
        let rest = chars@.skip(start as int);
        assert forall|k: int| 0 <= k < end - start implies !is_space(#[trigger] rest[k]) by {
            assert(rest[k] == chars@[start + k]);
        }
        lemma_word_prefix(rest, end - start);
        assert(rest.subrange(0, end - start) =~= chars@.subrange(start as int, end as int));
    }
    Some(piece(chars, start, end))
}

/// Every byte is printable ASCII other than the space.
pub open spec fn visible_ascii(text: Seq<char>) -> bool {
    forall|i: int| 0 <= i < utf8(text).len() ==> 0x21 <= #[trigger] utf8(text)[i] <= 0x7e
}

/// Whether every byte is printable ASCII other than the space.
pub fn is_visible_ascii(text: &str) -> (yes: bool)
    ensures
        yes == visible_ascii(text@),
{
    let bytes: &[u8] = text.as_bytes();
    let mut i: usize = 0;
    while i < bytes.len()
        invariant
            bytes@ == utf8(text@),
            i <= bytes@.len(),
            forall|k: int| 0 <= k < i ==> 0x21 <= #[trigger] bytes@[k] <= 0x7e,
        decreases bytes@.len() - i,
    {
        if bytes[i] < 0x21 || bytes[i] > 0x7e {
            return false;
        }
        i = i + 1;
    }
    true
}

/// The number of bytes of a text.
pub fn byte_len(text: &str) -> (count: usize)
    ensures
        count == utf8(text@).len(),
{
    text.as_bytes().len()
}

/// The character of a decimal digit.
pub open spec fn digit_char(digit: nat) -> char {
    ('0' as u32 + digit) as char
}

/// A number in decimal.
pub open spec fn decimal_text(number: nat) -> Seq<char>
    decreases number,
{
    if number < 10 {
        seq![digit_char(number)]
    } else {
        decimal_text(number / 10).push(digit_char(number % 10))
    }
}

fn digit(value: u64) -> (letter: char)
    requires
        value < 10,
    ensures
        letter == digit_char(value as nat),
{
    match value {
        0 => '0',
        1 => '1',
        2 => '2',
        3 => '3',
        4 => '4',
        5 => '5',
        6 => '6',
        7 => '7',
        8 => '8',
        _ => '9',
    }
}

/// A number in decimal.
pub fn decimal(number: u64) -> (text: String)
    ensures
        text@ == decimal_text(number as nat),
    decreases number,
{
    if number < 10 {
        let mut text = String::new();
        text.push(digit(number));
        assert(text@ =~= seq![digit_char(number as nat)]);
        text
    } else {
        let mut text = decimal(number / 10);
        text.push(digit(number % 10));
        text
    }
}

/// A number in decimal, with a minus sign where it is negative.
pub open spec fn signed_text(number: int) -> Seq<char> {
    if number < 0 {
        seq!['-'] + decimal_text((-number) as nat)
    } else {
        decimal_text(number as nat)
    }
}

/// A number in decimal, with a minus sign where it is negative.
pub fn signed_decimal(number: i64) -> (text: String)
    ensures
        text@ == signed_text(number as int),
{
    if number >= 0 {
        return decimal(number as u64);
    }
    let magnitude: u64 = if number == i64::MIN {
        0x8000_0000_0000_0000
    } else {
        (-number) as u64
    };
    let mut text = String::new();
    text.push('-');
    assert(text@ =~= seq!['-']);
    let digits = decimal(magnitude);
    text.append(digits.as_str());
    text
}

/// A decimal digit.
pub open spec fn is_digit(letter: char) -> bool {
    '0' <= letter <= '9'
}

/// The value of a run of decimal digits.
pub open spec fn digits_value(digits: Seq<char>) -> nat
    decreases digits.len(),
{
    if digits.len() == 0 {
        0
    } else {
        digits_value(digits.drop_last()) * 10 + (digits.last() as u32 - '0' as u32) as nat
    }
}

/// Every character is a decimal digit.
pub open spec fn all_digits(text: Seq<char>) -> bool {
    forall|i: int| 0 <= i < text.len() ==> is_digit(#[trigger] text[i])
}

/// A text without one leading plus sign.
pub open spec fn unsigned_part(text: Seq<char>) -> Seq<char> {
    if text.len() > 0 && text[0] == '+' {
        text.drop_first()
    } else {
        text
    }
}

/// What a text reads as: one or more digits after an optional plus sign, in 64 bits.
pub open spec fn decimal_value(text: Seq<char>) -> Option<u64> {
    let digits = unsigned_part(text);
    if digits.len() > 0 && all_digits(digits) && digits_value(digits) <= u64::MAX {
        Some(digits_value(digits) as u64)
    } else {
        None
    }
}

proof fn lemma_digits_value_grows(digits: Seq<char>, n: int)
    requires
        0 <= n <= digits.len(),
        all_digits(digits),
    ensures
        digits_value(digits.subrange(0, n)) <= digits_value(digits),
    decreases digits.len() - n,
{
    if n < digits.len() {
        lemma_digits_value_grows(digits, n + 1);
        assert(digits.subrange(0, n + 1).drop_last() =~= digits.subrange(0, n));
        assert(is_digit(digits[n]));
    } else {
        assert(digits.subrange(0, n) =~= digits);
    }
}

/// Reads a number as `u64::from_str` does.
pub fn parse_decimal(text: &str) -> (number: Option<u64>)
    ensures
        number == decimal_value(text@),
{
    let chars = chars_of(text);
    let start: usize = if chars.len() > 0 && chars[0] == '+' {
        1
    } else {
        0
    };
    let ghost digits = unsigned_part(chars@);
    assert(digits =~= chars@.skip(start as int));
    if start == chars.len() {
        return None;
    }
    let mut value: u64 = 0;
    let mut i: usize = start;
    assert(digits.subrange(0, 0) =~= Seq::<char>::empty());
    while i < chars.len()
        invariant
            start <= i <= chars@.len(),
            start < chars@.len(),
            chars@ == text@,
            digits == unsigned_part(text@),
            digits == chars@.skip(start as int),
            forall|k: int| 0 <= k < i - start ==> is_digit(#[trigger] digits[k]),
            value == digits_value(digits.subrange(0, i - start)),
        decreases chars@.len() - i,
    {
        let letter = chars[i];
        assert(digits[i - start] == letter);
        if letter < '0' || letter > '9' {
            return None;
        }
        let step: u64 = letter as u64 - '0' as u64;
        assert(digits.subrange(0, i + 1 - start).drop_last() =~= digits.subrange(0, i - start));
        proof {
            if all_digits(digits) {
                lemma_digits_value_grows(digits, i + 1 - start);
            }
        }
        let scaled: u64 = match value.checked_mul(10) {
            Some(scaled) => scaled,
            None => return None,
        };
        value = match scaled.checked_add(step) {
            Some(sum) => sum,
            None => return None,
        };
        i = i + 1;
    }
    assert(digits.subrange(0, digits.len() as int) =~= digits);
    Some(value)
}

/// Spaces.
pub open spec fn spaces(count: nat) -> Seq<char> {
    Seq::new(count, |i: int| ' ')
}

/// A text filled up with spaces on the right to at least `width` characters.
pub open spec fn padded(text: Seq<char>, width: nat) -> Seq<char> {
    if text.len() < width {
        text + spaces((width - text.len()) as nat)
    } else {
        text
    }
}

/// A text filled up with spaces on the right to at least `width` characters.
pub fn pad(text: &str, width: usize) -> (wide: String)
    ensures
        wide@ == padded(text@, width as nat),
{
    let mut count: usize = text.unicode_len();
    let mut wide = text.to_owned();
    assert(text@ + spaces(0) =~= text@);
    let ghost length = text@.len();
    while count < width
        invariant
            length == text@.len(),
            length <= count,
            length >= width ==> count == length,
            length < width ==> count <= width,
            wide@ == text@ + spaces((count - length) as nat),
        decreases width - count,
    {
        wide.push(' ');
        assert(wide@ =~= text@ + spaces((count + 1 - length) as nat));
        count = count + 1;
    }
    wide
}

/// The views of a list of texts.
pub open spec fn views(texts: Seq<String>) -> Seq<Seq<char>> {
    texts.map_values(|text: String| text@)
}

/// Texts one after the other with `separator` between each two.
pub open spec fn joined(parts: Seq<Seq<char>>, separator: Seq<char>) -> Seq<char>
    decreases parts.len(),
{
    if parts.len() == 0 {
        Seq::empty()
    } else if parts.len() == 1 {
        parts[0]
    } else {
        joined(parts.drop_last(), separator) + separator + parts.last()
    }
}

/// Texts one after the other with `separator` between each two.
pub fn join(parts: &Vec<String>, separator: &str) -> (text: String)
    ensures
        text@ == joined(views(parts@), separator@),
{
    let mut text = String::new();
    let ghost seen = views(parts@);
    let mut i: usize = 0;
    while i < parts.len()
        invariant
            i <= parts@.len(),
            seen == views(parts@),
            text@ == joined(seen.take(i as int), separator@),
        decreases parts@.len() - i,
    {
        if i > 0 {
            text.append(separator);
        }
        text.append(parts[i].as_str());
        proof {
            let next = seen.take(i + 1);
            assert(next.drop_last() =~= seen.take(i as int));
            assert(next.last() == parts@[i as int]@);
            if i == 0 {
                assert(text@ =~= next[0]);
            }
        }
        i = i + 1;
    }
    assert(seen.take(parts@.len() as int) =~= seen);
    text
}

/// Whether a list of texts holds `wanted`.
pub fn any_same(texts: &Vec<String>, wanted: &str) -> (yes: bool)
    ensures
        yes == views(texts@).contains(wanted@),
{
    let mut i: usize = 0;
    while i < texts.len()
        invariant
            i <= texts@.len(),
            forall|k: int| 0 <= k < i ==> texts@[k]@ != wanted@,
        decreases texts@.len() - i,
    {
        if same(texts[i].as_str(), wanted) {
            assert(views(texts@)[i as int] == wanted@);
            return true;
        }
        i = i + 1;
    }
    assert forall|k: int| 0 <= k < views(texts@).len() implies views(texts@)[k] != wanted@ by {}
    false
}

/// A copy of a list of texts.
pub fn copy_all(texts: &Vec<String>) -> (copy: Vec<String>)
    ensures
        copy@ == texts@,
{
    let mut copy: Vec<String> = Vec::new();
    let mut i: usize = 0;
    while i < texts.len()
        invariant
            i <= texts@.len(),
            copy@ == texts@.take(i as int),
        decreases texts@.len() - i,
    {
        copy.push(texts[i].clone());
        assert(texts@.take(i + 1) =~= texts@.take(i as int).push(texts@[i as int]));
        i = i + 1;
    }
    assert(texts@.take(texts@.len() as int) =~= texts@);
    copy
}

/// A copy of an optional text.
pub fn copy_option(text: &Option<String>) -> (copy: Option<String>)
    ensures
        copy == *text,
{
    match text {
        Some(inner) => Some(inner.clone()),
        None => None,
    }
}

/// The view of an optional text.
pub open spec fn option_view(text: Option<String>) -> Option<Seq<char>> {
    match text {
        Some(inner) => Some(inner@),
        None => None,
    }
}

/// Whether an optional text holds `wanted`.
pub fn option_same(text: &Option<String>, wanted: &str) -> (yes: bool)
    ensures
        yes == (option_view(*text) == Some(wanted@)),
{
    match text {
        Some(inner) => same(inner.as_str(), wanted),
        None => false,
    }
}

/// Whether two optional texts are the same.
pub fn options_same(a: &Option<String>, b: &Option<String>) -> (yes: bool)
    ensures
        yes == (option_view(*a) == option_view(*b)),
{
    match (a, b) {
        (Some(left), Some(right)) => same(left.as_str(), right.as_str()),
        (None, None) => true,
        _ => false,
    }
}

/// The ASCII lower case of a character.
pub open spec fn lower(letter: char) -> char {
    if 'A' <= letter <= 'Z' {
        (letter as u32 + 32) as char
    } else {
        letter
    }
}

/// One text after the other.
pub fn concat(first: &str, second: &str) -> (both: String)
    ensures
        both@ == first@ + second@,
{
    let mut both = first.to_owned();
    both.append(second);
    both
}

/// Three texts, one after the other.
pub fn concat3(first: &str, second: &str, third: &str) -> (all: String)
    ensures
        all@ == first@ + second@ + third@,
{
    let mut all = first.to_owned();
    all.append(second);
    all.append(third);
    all
}

/// A copy of a text.
pub fn owned(text: &str) -> (copy: String)
    ensures
        copy@ == text@,
{
    text.to_owned()
}

/// What follows the first place of a part is what stands behind that place.
pub proof fn text_after_its_first_place(whole: Seq<char>, part: Seq<char>, at: int)
    requires
        first_at(whole, part, at),
    ensures
        after_first(whole, part) == Some(whole.skip(at + part.len())),
{
    let other = choose|other: int| first_at(whole, part, other);
    assert(occurs(whole, part)) by {
        assert(stands_at(whole, part, at));
    }
    assert(first_at(whole, part, other));
    if other < at {
        assert(stands_at(whole, part, other));
    } else if at < other {
        assert(stands_at(whole, part, at));
    }
}

/// A text has no bytes exactly where it has no characters.
pub proof fn lemma_utf8_empty(text: Seq<char>)
    ensures
        utf8(text).len() == 0 <==> text.len() == 0,
{
    if text.len() > 0 {
        vstd::utf8::encode_utf8_first_scalar(text);
    }
}

/// Cutting a letter at the end cuts all of it there and nothing else.
pub proof fn trailing_letters_are_cut(text: Seq<char>, letter: char)
    ensures
        ({
            let short = without_trailing(text, letter);
            &&& short.is_prefix_of(text)
            &&& forall|i: int| short.len() <= i < text.len() ==> #[trigger] text[i] == letter
            &&& short.len() > 0 ==> short.last() != letter
        }),
    decreases text.len(),
{
    if text.len() > 0 && text.last() == letter {
        let rest = text.drop_last();
        trailing_letters_are_cut(rest, letter);
        let short = without_trailing(text, letter);
        assert(short.is_prefix_of(text)) by {
            assert(text.subrange(0, short.len() as int) =~= rest.subrange(0, short.len() as int));
        }
        assert forall|i: int| short.len() <= i < text.len() implies #[trigger] text[i]
            == letter by {
            if i < rest.len() {
                assert(text[i] == rest[i]);
            }
        }
    } else {
        assert(text.subrange(0, text.len() as int) =~= text);
    }
}

/// A text is white space throughout.
pub open spec fn only_space(text: Seq<char>) -> bool {
    forall|i: int| 0 <= i < text.len() ==> is_space(#[trigger] text[i])
}

/// A text is another with white space around it.
pub open spec fn is_padded(
    text: Seq<char>,
    before: Seq<char>,
    inner: Seq<char>,
    after: Seq<char>,
) -> bool {
    text == before + inner + after && only_space(before) && only_space(after)
}

/// Trimming cuts the white space at the two ends and nothing else.
pub proof fn trimming_cuts_the_ends(text: Seq<char>)
    ensures
        trimmed(text).len() > 0 ==> !is_space(trimmed(text)[0]) && !is_space(trimmed(text).last()),
        exists|before: Seq<char>, after: Seq<char>| #[trigger]
            is_padded(text, before, trimmed(text), after),
    decreases text.len(),
{
    let none = Seq::<char>::empty();
    if text.len() == 0 {
        assert(text =~= none + trimmed(text) + none);
        assert(is_padded(text, none, trimmed(text), none));
    } else if is_space(text[0]) {
        let rest = text.drop_first();
        trimming_cuts_the_ends(rest);
        let short = trimmed(rest);
        let (before, after) = choose|before: Seq<char>, after: Seq<char>| #[trigger]
            is_padded(rest, before, short, after);
        let longer = seq![text[0]] + before;
        assert(text =~= seq![text[0]] + rest);
        assert(longer + short + after =~= seq![text[0]] + (before + short + after));
        assert(only_space(longer)) by {
            assert forall|i: int| 0 <= i < longer.len() implies is_space(#[trigger] longer[i]) by {
                if i > 0 {
                    assert(longer[i] == before[i - 1]);
                }
            }
        }
        assert(is_padded(text, longer, trimmed(text), after));
    } else {
        lemma_trimmed_end(text);
        let short = trimmed_end(text);
        let after = text.skip(short.len() as int);
        assert(text =~= none + short + after);
        assert(only_space(after)) by {
            assert forall|i: int| 0 <= i < after.len() implies is_space(#[trigger] after[i]) by {
                assert(after[i] == text[short.len() + i]);
            }
        }
        if short.len() == 0 {
            assert(is_space(text[0]));
        }
        assert(short[0] == text[0]);
        assert(is_padded(text, none, trimmed(text), after));
    }
}

proof fn lemma_trimmed_end(text: Seq<char>)
    ensures
        ({
            let short = trimmed_end(text);
            &&& short.len() <= text.len()
            &&& short == text.take(short.len() as int)
            &&& forall|i: int| short.len() <= i < text.len() ==> is_space(#[trigger] text[i])
            &&& short.len() > 0 ==> !is_space(short.last())
        }),
    decreases text.len(),
{
    if text.len() > 0 && is_space(text.last()) {
        let rest = text.drop_last();
        lemma_trimmed_end(rest);
        let short = trimmed_end(text);
        assert(rest.take(short.len() as int) =~= text.take(short.len() as int));
        assert forall|i: int| short.len() <= i < text.len() implies is_space(
            #[trigger] text[i],
        ) by {
            if i < rest.len() {
                assert(text[i] == rest[i]);
            }
        }
    } else {
        assert(text.take(text.len() as int) =~= text);
    }
}

/// The letters that are white space: tab to carriage return, the space, and those beyond ASCII.
pub proof fn spaces_in_ascii(letter: char)
    requires
        (letter as u32) < 0x80,
    ensures
        is_space(letter) <==> letter == ' ' || 9 <= letter as u32 <= 13,
{
}

/// Lower case is made of the capitals of ASCII alone.
pub proof fn capitals_are_lowered(letter: char)
    ensures
        'A' <= letter && letter <= 'Z' ==> lower(letter) as int == letter as int + ('a' as int
            - 'A' as int),
        !('A' <= letter && letter <= 'Z') ==> lower(letter) == letter,
{
}

proof fn lemma_decimal_digits(number: nat)
    ensures
        decimal_text(number).len() > 0,
        all_digits(decimal_text(number)),
        digits_value(decimal_text(number)) == number,
    decreases number,
{
    let text = decimal_text(number);
    if number < 10 {
        assert(text.drop_last() =~= Seq::empty());
        assert(text.last() as u32 - '0' as u32 == number);
        assert(digits_value(text.drop_last()) == 0);
    } else {
        lemma_decimal_digits(number / 10);
        assert(text.drop_last() =~= decimal_text(number / 10));
        assert(text.last() == digit_char(number % 10));
        assert forall|i: int| 0 <= i < text.len() implies is_digit(#[trigger] text[i]) by {
            if i < text.len() - 1 {
                assert(text[i] == decimal_text(number / 10)[i]);
            }
        }
    }
}

/// A number is read back from its text, with or without a plus sign; a text with anything but digits
/// is no number.
pub proof fn numbers_are_read_back(number: nat, text: Seq<char>)
    ensures
        all_digits(decimal_text(number)),
        decimal_text(number).len() > 0,
        digits_value(decimal_text(number)) == number,
        number <= u64::MAX ==> decimal_value(decimal_text(number)) == Some(number as u64),
        number <= u64::MAX ==> decimal_value(seq!['+'] + decimal_text(number)) == Some(
            number as u64,
        ),
        number > u64::MAX ==> decimal_value(decimal_text(number)) is None,
        text.len() > 0 && text[0] != '+' && !all_digits(text) ==> decimal_value(text) is None,
        text.len() == 0 ==> decimal_value(text) is None,
{
    lemma_decimal_digits(number);
    let plain = decimal_text(number);
    assert(is_digit(plain[0]));
    assert((seq!['+'] + plain).drop_first() =~= plain);
}

/// Joined parts stand in their order, with the separator between each two.
pub proof fn parts_are_joined_in_order(parts: Seq<Seq<char>>, part: Seq<char>, separator: Seq<char>)
    ensures
        joined(Seq::empty(), separator) == Seq::<char>::empty(),
        joined(seq![part], separator) == part,
        parts.len() > 0 ==> joined(parts.push(part), separator) == joined(parts, separator)
            + separator + part,
{
    assert(parts.push(part).drop_last() =~= parts);
}

} // verus!
