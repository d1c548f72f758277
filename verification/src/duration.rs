//! Durations as rate limits spell them: `6m0s`, `1s200ms`, `2.5s`.
//!
//! They are added up in doubles, so a sum that should be whole can come out a little longer, and
//! count as one second more.
use crate::double::decimal;
use crate::double::thousandth;
use crate::double::Double;
use crate::text::chars_of;
use vstd::arithmetic::power::pow;
use vstd::arithmetic::power2::*;
use vstd::prelude::*;

verus! {

/// The longest duration that is accepted, a year, in seconds.
pub const LONGEST: u64 = 31_536_000;

/// How many units the number one has.
pub open spec fn one() -> nat {
    crate::double::one()
}

/// The characters that a number is made of.
pub open spec fn is_number_char(letter: char) -> bool {
    crate::text::is_digit(letter) || letter == '.'
}

/// How many characters of a number a text starts with.
pub open spec fn number_length(text: Seq<char>) -> nat
    decreases text.len(),
{
    if text.len() > 0 && is_number_char(text[0]) {
        1 + number_length(text.drop_first())
    } else {
        0
    }
}

/// How many characters stand before the first point.
pub open spec fn whole_length(number: Seq<char>) -> nat
    decreases number.len(),
{
    if number.len() > 0 && number[0] != '.' {
        1 + whole_length(number.drop_first())
    } else {
        0
    }
}

/// A decimal number as a double: digits with at most one point among them, and at least one digit.
pub open spec fn amount(number: Seq<char>) -> Option<nat> {
    let point = whole_length(number) as int;
    let whole = number.take(point);
    let fraction = if point < number.len() {
        number.skip(point + 1)
    } else {
        Seq::empty()
    };
    if crate::text::all_digits(whole) && crate::text::all_digits(fraction) && whole.len()
        + fraction.len() > 0 {
        Some(decimal_double(whole, fraction))
    } else {
        None
    }
}

/// The double nearest to a decimal number, given the digits before and after the point.
pub open spec fn decimal_double(whole: Seq<char>, fraction: Seq<char>) -> nat {
    let parts = pow(10, fraction.len());
    crate::double::nearest_double(
        (crate::text::digits_value(whole) * parts + crate::text::digits_value(fraction)) as nat,
        parts as nat,
    )
}

/// The unit that a text starts with: its length, and the double that is nearest to the seconds
/// that it has.
pub open spec fn unit(text: Seq<char>) -> Option<(nat, nat)> {
    if text.len() >= 2 && text[0] == 'm' && text[1] == 's' {
        Some((2nat, crate::double::nearest_double(1, 1000)))
    } else if text.len() >= 1 && text[0] == 'd' {
        Some((1nat, 86_400 * one()))
    } else if text.len() >= 1 && text[0] == 'h' {
        Some((1nat, 3_600 * one()))
    } else if text.len() >= 1 && text[0] == 'm' {
        Some((1nat, 60 * one()))
    } else if text.len() >= 1 && text[0] == 's' {
        Some((1nat, 1 * one()))
    } else {
        None
    }
}

/// The sum of what came before and the terms of a text, in doubles: numbers, each followed by its
/// unit. There is none once the sum is longer than a year.
pub open spec fn total(text: Seq<char>, before: nat) -> Option<nat>
    decreases text.len(),
{
    if text.len() == 0 {
        Some(before)
    } else {
        let length = number_length(text) as int;
        proof {
            number_is_within(text);
        }
        match (amount(text.take(length)), unit(text.skip(length))) {
            (Some(count), Some((size, each))) => {
                let sum = crate::double::sum(before, crate::double::product(count, each));
                if sum > LONGEST * one() {
                    None
                } else {
                    total(text.skip(length + size as int), sum)
                }
            },
            _ => None,
        }
    }
}

/// The seconds of a duration, rounded up; `None` where the text is no duration, or one longer
/// than a year.
pub open spec fn seconds(text: Seq<char>) -> Option<u64> {
    match total(text, 0) {
        Some(sum) if text.len() > 0 => Some(((sum + one() - 1) / one() as int) as u64),
        _ => None,
    }
}

/// A number ends within its text.
pub proof fn number_is_within(text: Seq<char>)
    ensures
        number_length(text) <= text.len(),
    decreases text.len(),
{
    if text.len() > 0 {
        number_is_within(text.drop_first());
    }
}

proof fn lemma_number_length(text: Seq<char>, n: int)
    requires
        0 <= n <= text.len(),
        forall|i: int| 0 <= i < n ==> is_number_char(#[trigger] text[i]),
        n < text.len() ==> !is_number_char(text[n]),
    ensures
        number_length(text) == n,
    decreases n,
{
    if n > 0 {
        let rest = text.drop_first();
        assert forall|i: int| 0 <= i < n - 1 implies is_number_char(#[trigger] rest[i]) by {
            assert(rest[i] == text[i + 1]);
        }
        lemma_number_length(rest, n - 1);
    }
}

pub(crate) proof fn lemma_whole_length(number: Seq<char>, n: int)
    requires
        0 <= n <= number.len(),
        forall|i: int| 0 <= i < n ==> #[trigger] number[i] != '.',
        n < number.len() ==> number[n] == '.',
    ensures
        whole_length(number) == n,
    decreases n,
{
    if n > 0 {
        let rest = number.drop_first();
        assert forall|i: int| 0 <= i < n - 1 implies #[trigger] rest[i] != '.' by {
            assert(rest[i] == number[i + 1]);
        }
        lemma_whole_length(rest, n - 1);
    }
}

/// The value of the digits from `from` up to `to`, or `None` where it is `2^53` or more.
fn whole_value(chars: &Vec<char>, from: usize, to: usize) -> (value: Option<u64>)
    requires
        from <= to <= chars@.len(),
        crate::text::all_digits(chars@.subrange(from as int, to as int)),
    ensures
        match value {
            Some(found) => found < 0x20_0000_0000_0000 && found == crate::text::digits_value(
                chars@.subrange(from as int, to as int),
            ),
            None => crate::text::digits_value(chars@.subrange(from as int, to as int))
                >= 0x20_0000_0000_0000,
        },
{
    let ghost digits = chars@.subrange(from as int, to as int);
    let mut value: u64 = 0;
    let mut i: usize = from;
    assert(digits.take(0) =~= Seq::<char>::empty());
    while i < to
        invariant
            from <= i <= to <= chars@.len(),
            digits == chars@.subrange(from as int, to as int),
            crate::text::all_digits(digits),
            value < 0x20_0000_0000_0000,
            value == crate::text::digits_value(digits.take(i - from)),
        decreases to - i,
    {
        let letter = chars[i];
        assert(digits[i - from] == letter);
        assert(crate::text::is_digit(digits[i - from]));
        let step: u64 = letter as u64 - '0' as u64;
        assert(digits.take(i + 1 - from).drop_last() =~= digits.take(i - from));
        value = value * 10 + step;
        if value >= 0x20_0000_0000_0000 {
            proof {
                lemma_value_grows(digits, i + 1 - from);
            }
            return None;
        }
        i = i + 1;
    }
    assert(digits.take(to - from) =~= digits);
    Some(value)
}

proof fn lemma_value_grows(digits: Seq<char>, n: int)
    requires
        0 <= n <= digits.len(),
        crate::text::all_digits(digits),
    ensures
        crate::text::digits_value(digits.take(n)) <= crate::text::digits_value(digits),
    decreases digits.len() - n,
{
    if n < digits.len() {
        lemma_value_grows(digits, n + 1);
        assert(digits.take(n + 1).drop_last() =~= digits.take(n));
        assert(crate::text::is_digit(digits[n]));
    } else {
        assert(digits.take(n) =~= digits);
    }
}

proof fn lemma_reversed(digits: Seq<u8>, text: Seq<char>)
    requires
        digits.len() == text.len(),
        crate::text::all_digits(text),
        forall|i: int|
            0 <= i < digits.len() ==> #[trigger] digits[i] == text[text.len() - 1 - i] as u32
                - '0' as u32,
    ensures
        crate::percent::value(digits) == crate::text::digits_value(text),
    decreases text.len(),
{
    if text.len() > 0 {
        let rest = digits.drop_first();
        let shorter = text.drop_last();
        assert forall|i: int| 0 <= i < rest.len() implies #[trigger] rest[i]
            == shorter[shorter.len() - 1 - i] as u32 - '0' as u32 by {
            assert(rest[i] == digits[i + 1]);
        }
        lemma_reversed(rest, shorter);
        assert(digits[0] == text.last() as u32 - '0' as u32);
        assert(crate::text::is_digit(text[text.len() - 1]));
    }
}

/// The digits from `from` up to `to`, the last one first.
pub(crate) fn digits_of(chars: &Vec<char>, from: usize, to: usize) -> (digits: Vec<u8>)
    requires
        from <= to <= chars@.len(),
        crate::text::all_digits(chars@.subrange(from as int, to as int)),
    ensures
        digits@.len() == to - from,
        forall|i: int| 0 <= i < digits@.len() ==> #[trigger] digits@[i] < 10,
        crate::percent::value(digits@) == crate::text::digits_value(
            chars@.subrange(from as int, to as int),
        ),
{
    let ghost text = chars@.subrange(from as int, to as int);
    let mut digits: Vec<u8> = Vec::new();
    let mut i: usize = to;
    while i > from
        invariant
            from <= i <= to <= chars@.len(),
            text == chars@.subrange(from as int, to as int),
            crate::text::all_digits(text),
            digits@.len() == to - i,
            forall|k: int| 0 <= k < digits@.len() ==> #[trigger] digits@[k] < 10,
            forall|k: int|
                0 <= k < digits@.len() ==> #[trigger] digits@[k] == text[text.len() - 1 - k] as u32
                    - '0' as u32,
        decreases i,
    {
        i = i - 1;
        let letter = chars[i];
        assert(text[i - from] == letter);
        assert(crate::text::is_digit(text[i - from]));
        digits.push((letter as u32 - '0' as u32) as u8);
    }
    proof {
        lemma_reversed(digits@, text);
    }
    digits
}

/// What a text is as a number.
enum Amount {
    /// No number.
    Invalid,
    /// A number of `2^53` or more.
    Large,
    Found(Double),
}

/// The number that stands from `from` up to `to`.
fn amount_of(chars: &Vec<char>, from: usize, to: usize) -> (count: Amount)
    requires
        from <= to <= chars@.len(),
        forall|i: int| from <= i < to ==> is_number_char(#[trigger] chars@[i]),
    ensures
        match count {
            Amount::Invalid => amount(chars@.subrange(from as int, to as int)) is None,
            Amount::Large => amount(chars@.subrange(from as int, to as int)) matches Some(found)
                && found >= pow2(53) * one(),
            Amount::Found(number) => number.wf() && number.power <= 1314 && amount(
                chars@.subrange(from as int, to as int),
            ) == Some(number.units()),
        },
{
    let ghost number = chars@.subrange(from as int, to as int);
    let mut point: usize = from;
    while point < to && chars[point] != '.'
        invariant
            from <= point <= to <= chars@.len(),
            forall|i: int| from <= i < point ==> #[trigger] chars@[i] != '.',
        decreases to - point,
    {
        point = point + 1;
    }
    proof {
        assert forall|i: int| 0 <= i < point - from implies #[trigger] number[i] != '.' by {
            assert(number[i] == chars@[from + i]);
        }
        assert(point < to ==> number[point - from] == chars@[point as int]);
        lemma_whole_length(number, point - from);
    }
    let start: usize = if point < to {
        point + 1
    } else {
        to
    };
    let ghost whole = number.take(point - from);
    let ghost rest = if point < to {
        number.skip(point - from + 1)
    } else {
        Seq::empty()
    };
    proof {
        assert(whole =~= chars@.subrange(from as int, point as int));
        assert(rest =~= chars@.subrange(start as int, to as int));
        assert forall|i: int| 0 <= i < whole.len() implies crate::text::is_digit(
            #[trigger] whole[i],
        ) by {
            assert(whole[i] == chars@[from + i]);
            assert(is_number_char(chars@[from + i]));
        }
    }
    let mut i: usize = start;
    while i < to
        invariant
            start <= i <= to <= chars@.len(),
            from <= start,
            rest == chars@.subrange(start as int, to as int),
            forall|k: int| from <= k < to ==> is_number_char(#[trigger] chars@[k]),
            forall|k: int| start <= k < i ==> #[trigger] chars@[k] != '.',
            number == chars@.subrange(from as int, to as int),
            whole_length(number) == point - from,
            from <= point <= to,
            rest == (if point < to {
                number.skip(point - from + 1)
            } else {
                Seq::empty()
            }),
        decreases to - i,
    {
        if chars[i] == '.' {
            assert(rest[i - start] == '.');
            assert(!crate::text::is_digit(rest[i - start]));
            return Amount::Invalid;
        }
        i = i + 1;
    }
    assert(crate::text::all_digits(rest)) by {
        assert forall|k: int| 0 <= k < rest.len() implies crate::text::is_digit(
            #[trigger] rest[k],
        ) by {
            assert(rest[k] == chars@[start + k]);
            assert(is_number_char(chars@[start + k]));
        }
    }
    if point == from && start == to {
        return Amount::Invalid;
    }
    match whole_value(chars, from, point) {
        None => {
            proof {
                let parts = pow(10, rest.len());
                let value = crate::text::digits_value(whole);
                vstd::arithmetic::power::lemma_pow_positive(10, rest.len());
                lemma2_to64_rest();
                assert(value * parts >= parts * pow2(53)) by (nonlinear_arith)
                    requires
                        value >= pow2(53),
                        parts > 0,
                ;
                crate::double::rounding_keeps_powers(
                    (value * parts + crate::text::digits_value(rest)) as nat,
                    parts as nat,
                    53,
                );
            }
            Amount::Large
        },
        Some(value) => Amount::Found(decimal(value, digits_of(chars, start, to))),
    }
}

proof fn lemma_long(before: nat, term: nat)
    requires
        term >= pow2(43) * one(),
    ensures
        crate::double::sum(before, term) > LONGEST * one(),
{
    lemma2_to64_rest();
    lemma_pow2_pos(1074);
    assert(before + term >= one() * pow2(43)) by (nonlinear_arith)
        requires
            term >= pow2(43) * one(),
    ;
    crate::double::rounding_keeps_powers(before + term, one(), 43);
    assert(pow2(43) * one() > LONGEST * one()) by (nonlinear_arith)
        requires
            pow2(43) > LONGEST,
            one() > 0,
    ;
}

proof fn lemma_large_term(count: nat, each: nat)
    requires
        count >= pow2(53) * one(),
        each * 1024 >= one(),
    ensures
        crate::double::product(count, each) >= pow2(43) * one(),
{
    lemma2_to64();
    lemma2_to64_rest();
    lemma_pow2_adds(43, 10);
    lemma_pow2_pos(1074);
    assert(count * each >= (one() * one()) * pow2(43)) by (nonlinear_arith)
        requires
            count >= (pow2(43) * 1024) * one(),
            each * 1024 >= one(),
    ;
    assert(one() * one() > 0) by (nonlinear_arith)
        requires
            one() > 0,
    ;
    crate::double::rounding_keeps_powers(count * each, one() * one(), 43);
}

proof fn lemma_ceil_above(sum: nat)
    ensures
        (sum + one() - 1) / one() as int > LONGEST <==> sum > LONGEST * one(),
{
    lemma_pow2_pos(1074);
    let b = one() as int;
    let top = sum + b - 1;
    let quotient = top / b;
    vstd::arithmetic::div_mod::lemma_fundamental_div_mod(top, b);
    if quotient > LONGEST {
        assert(b * quotient >= b * LONGEST + b) by (nonlinear_arith)
            requires
                quotient >= LONGEST + 1,
                b > 0,
        ;
        assert(b * LONGEST == LONGEST * one()) by (nonlinear_arith)
            requires
                b == one(),
        ;
    } else {
        assert(b * quotient <= b * LONGEST) by (nonlinear_arith)
            requires
                quotient <= LONGEST,
                b > 0,
        ;
        assert(b * LONGEST == LONGEST * one()) by (nonlinear_arith)
            requires
                b == one(),
        ;
    }
}

/// The seconds of a duration, rounded up; `None` where the text is no duration, or one longer
/// than a year.
pub fn duration_seconds(value: &str) -> (result: Option<u64>)
    ensures
        result == seconds(value@),
{
    let chars = chars_of(value);
    if chars.len() == 0 {
        return None;
    }
    let mut sum = Double::zero();
    let mut at: usize = 0;
    proof {
        lemma2_to64_rest();
        assert(chars@.skip(0) =~= chars@);
        lemma_pow2_pos(1074);
        assert(LONGEST * one() >= 0) by (nonlinear_arith)
            requires
                one() > 0,
        ;
        lemma_ceil_above(0);
    }
    while at < chars.len()
        invariant
            at <= chars@.len(),
            chars@.len() > 0,
            chars@ == value@,
            one() > 0,
            sum.wf(),
            sum.power < 1074,
            sum.units() <= LONGEST * one(),
            total(chars@, 0) == total(chars@.skip(at as int), sum.units()),
        decreases chars@.len() - at,
    {
        let ghost rest = chars@.skip(at as int);
        let mut end: usize = at;
        while end < chars.len() && (chars[end] == '.' || ('0' <= chars[end] && chars[end] <= '9'))
            invariant
                at <= end <= chars@.len(),
                forall|i: int| at <= i < end ==> is_number_char(#[trigger] chars@[i]),
            decreases chars@.len() - end,
        {
            end = end + 1;
        }
        proof {
            assert forall|i: int| 0 <= i < end - at implies is_number_char(#[trigger] rest[i]) by {
                assert(rest[i] == chars@[at + i]);
            }
            assert(end < chars@.len() ==> rest[end - at] == chars@[end as int]);
            lemma_number_length(rest, end - at);
            assert(rest.take(end - at) =~= chars@.subrange(at as int, end as int));
            assert(rest.skip(end - at) =~= chars@.skip(end as int));
        }
        let ghost tail = chars@.skip(end as int);
        assert(end < chars@.len() ==> tail[0] == chars@[end as int]);
        assert(end + 1 < chars@.len() ==> tail[1] == chars@[end + 1]);
        if end == chars.len() {
            return None;
        }
        let (size, each): (usize, Double) = if end + 1 < chars.len() && chars[end] == 'm'
            && chars[end + 1] == 's' {
            (2, thousandth())
        } else if chars[end] == 'd' {
            (1, Double::whole(86_400))
        } else if chars[end] == 'h' {
            (1, Double::whole(3_600))
        } else if chars[end] == 'm' {
            (1, Double::whole(60))
        } else if chars[end] == 's' {
            (1, Double::whole(1))
        } else {
            return None;
        };
        proof {
            crate::double::whole_numbers_are_exact(86_400);
            crate::double::whole_numbers_are_exact(3_600);
            crate::double::whole_numbers_are_exact(60);
            crate::double::whole_numbers_are_exact(1);
            assert(unit(tail) == Some((size as nat, each.units())));
            assert(each.units() * 1024 >= one()) by (nonlinear_arith)
                requires
                    each.units() * 1024 >= one() || each.units() >= one(),
            ;
            assert(rest.skip(end - at + size) =~= chars@.skip(end + size));
        }
        let count = match amount_of(&chars, at, end) {
            Amount::Found(count) => count,
            Amount::Invalid => {
                return None;
            },
            Amount::Large => {
                proof {
                    let found = amount(rest.take(end - at))->Some_0;
                    lemma_large_term(found, each.units());
                    lemma_long(sum.units(), crate::double::product(found, each.units()));
                }
                return None;
            },
        };
        sum = sum.plus(count.times(each));
        proof {
            lemma_ceil_above(sum.units());
        }
        match sum.ceil() {
            Some(seconds) => {
                if seconds > LONGEST {
                    return None;
                }
            },
            None => {
                proof {
                    lemma2_to64_rest();
                    assert(pow2(52) * one() > LONGEST * one()) by (nonlinear_arith)
                        requires
                            pow2(52) > LONGEST,
                            one() > 0,
                    ;
                }
                return None;
            },
        }
        at = end + size;
    }
    assert(chars@.skip(at as int) =~= Seq::<char>::empty());
    sum.ceil()
}

proof fn lemma_total_is_short(text: Seq<char>, before: nat)
    requires
        before <= LONGEST * one(),
    ensures
        total(text, before) matches Some(sum) ==> sum <= LONGEST * one(),
    decreases text.len(),
{
    if text.len() > 0 {
        let length = number_length(text) as int;
        number_is_within(text);
        if let (Some(count), Some((size, each))) = (
            amount(text.take(length)),
            unit(text.skip(length)),
        ) {
            let sum = crate::double::sum(before, crate::double::product(count, each));
            if sum <= LONGEST * one() {
                lemma_total_is_short(text.skip(length + size as int), sum);
            }
        }
    }
}

/// No duration is longer than a year.
pub proof fn duration_is_at_most_a_year(text: Seq<char>)
    ensures
        seconds(text) matches Some(count) ==> count <= LONGEST,
{
    lemma_pow2_pos(1074);
    assert(0 <= LONGEST * one()) by (nonlinear_arith)
        requires
            one() > 0,
    ;
    lemma_total_is_short(text, 0);
    if let Some(sum) = total(text, 0) {
        lemma_ceil_above(sum);
        vstd::arithmetic::div_mod::lemma_div_pos_is_pos(sum + one() - 1, one() as int);
    }
}

proof fn lemma_number_prefix(digits: Seq<char>, more: Seq<char>)
    requires
        crate::text::all_digits(digits),
        more.len() == 0 || !is_number_char(more[0]),
    ensures
        number_length(digits + more) == digits.len(),
    decreases digits.len(),
{
    let text = digits + more;
    if digits.len() == 0 {
        assert(text =~= more);
    } else {
        assert(text[0] == digits[0]);
        assert(crate::text::is_digit(digits[0]));
        let rest = digits.drop_first();
        assert forall|i: int| 0 <= i < rest.len() implies crate::text::is_digit(
            #[trigger] rest[i],
        ) by {
            assert(rest[i] == digits[i + 1]);
        }
        assert(text.drop_first() =~= rest + more);
        lemma_number_prefix(rest, more);
    }
}

pub(crate) proof fn lemma_digits_before_point(digits: Seq<char>, more: Seq<char>)
    requires
        crate::text::all_digits(digits),
        more.len() == 0 || more[0] == '.',
    ensures
        whole_length(digits + more) == digits.len(),
    decreases digits.len(),
{
    let text = digits + more;
    if digits.len() == 0 {
        assert(text =~= more);
    } else {
        assert(text[0] == digits[0]);
        assert(crate::text::is_digit(digits[0]));
        let rest = digits.drop_first();
        assert forall|i: int| 0 <= i < rest.len() implies crate::text::is_digit(
            #[trigger] rest[i],
        ) by {
            assert(rest[i] == digits[i + 1]);
        }
        assert(text.drop_first() =~= rest + more);
        lemma_digits_before_point(rest, more);
    }
}

/// How many seconds a letter stands for.
pub open spec fn stands_for_seconds(letter: char, seconds: nat) -> bool {
    ||| letter == 'd' && seconds == 24 * 60 * 60
    ||| letter == 'h' && seconds == 60 * 60
    ||| letter == 'm' && seconds == 60
    ||| letter == 's' && seconds == 1
}

proof fn lemma_whole_sum(count: nat, each: nat, before: nat)
    requires
        count <= 0x20_0000_0000_0000,
        count * each <= 0x20_0000_0000_0000,
        before + count * each <= 0x20_0000_0000_0000,
    ensures
        crate::double::sum(
            before * one(),
            crate::double::product(count * one(), each * one()),
        ) == (before + count * each) * one(),
{
    let o = one();
    lemma_pow2_pos(1074);
    let square = o * o;
    assert(square > 0) by (nonlinear_arith)
        requires
            square == o * o,
            o > 0,
    ;
    let part = count * each;
    assert((count * o) * (each * o) == part * square) by (nonlinear_arith)
        requires
            part == count * each,
            square == o * o,
    ;
    crate::double::lemma_scaled_quotient(part, 1, square);
    assert(1 * square == square);
    crate::double::whole_numbers_are_exact(part);
    let all = before + part;
    assert(before * o + part * o == all * o) by (nonlinear_arith)
        requires
            all == before + part,
    ;
    crate::double::lemma_scaled_quotient(all, 1, o);
    assert(1 * o == o);
    crate::double::whole_numbers_are_exact(all);
}

proof fn lemma_amount(number: nat)
    requires
        number <= 0x20_0000_0000_0000,
    ensures
        amount(crate::text::decimal_text(number)) == Some(number * one()),
{
    let digits = crate::text::decimal_text(number);
    crate::text::numbers_are_read_back(number, Seq::empty());
    lemma_digits_before_point(digits, Seq::empty());
    assert(digits + Seq::<char>::empty() =~= digits);
    assert(digits.take(digits.len() as int) =~= digits);
    vstd::arithmetic::power::lemma_pow0(10);
    crate::double::whole_numbers_are_exact(number);
    assert(crate::text::digits_value(Seq::empty()) == 0);
    assert(number * 1 + 0 == number);
}

proof fn lemma_total_part(
    number: nat,
    letter: char,
    each: nat,
    more: Seq<char>,
    before: nat,
)
    requires
        stands_for_seconds(letter, each),
        more.len() == 0 || more[0] != 's',
        number <= 0x20_0000_0000_0000,
        number * each <= 0x10_0000_0000_0000,
        before <= 31_536_000,
    ensures
        ({
            let text = crate::text::decimal_text(number) + seq![letter] + more;
            total(text, before * one()) == if before + number * each <= 31_536_000 {
                total(more, (before + number * each) * one())
            } else {
                None
            }
        }),
{
    let digits = crate::text::decimal_text(number);
    let rest = seq![letter] + more;
    let text = digits + seq![letter] + more;
    assert(text =~= digits + rest);
    crate::text::numbers_are_read_back(number, Seq::empty());
    lemma_number_prefix(digits, rest);
    let length = digits.len() as int;
    assert(text.take(length) =~= digits);
    assert(text.skip(length) =~= rest);
    assert(text.skip(length + 1) =~= more);
    lemma_amount(number);
    assert(rest[0] == letter);
    if more.len() > 0 {
        assert(rest[1] == more[0]);
    }
    assert(unit(rest) == Some((1nat, each * one())));
    lemma_whole_sum(number, each, before);
    let sum = before + number * each;
    lemma_pow2_pos(1074);
    let o = one();
    assert(sum * o > 31_536_000 * o <==> sum > 31_536_000) by (nonlinear_arith)
        requires
            o > 0,
    ;
}

proof fn lemma_ceil_whole(count: nat)
    requires
        count <= u64::MAX,
    ensures
        ((count * one() + one() - 1) / one() as int) as u64 == count,
{
    let o = one();
    lemma_pow2_pos(1074);
    vstd::arithmetic::div_mod::lemma_fundamental_div_mod_converse(
        (count * o + o - 1) as int,
        o as int,
        count as int,
        o - 1,
    );
}

/// A duration is a whole number and a letter: days, hours, minutes or seconds. One of more than a
/// year, or without a letter, is none.
pub proof fn durations_are_read(number: nat, letter: char, each: nat)
    requires
        stands_for_seconds(letter, each),
        number <= 0x20_0000_0000_0000,
        number * each <= 0x10_0000_0000_0000,
    ensures
        number * each <= 365 * 24 * 60 * 60 ==> seconds(
            crate::text::decimal_text(number) + seq![letter],
        ) == Some((number * each) as u64),
        number * each > 365 * 24 * 60 * 60 ==> seconds(
            crate::text::decimal_text(number) + seq![letter],
        ) is None,
        seconds(crate::text::decimal_text(number)) is None,
        seconds(Seq::empty()) is None,
{
    let digits = crate::text::decimal_text(number);
    let none = Seq::<char>::empty();
    lemma_total_part(number, letter, each, none, 0);
    assert(digits + seq![letter] + none =~= digits + seq![letter]);
    assert(0 * one() == 0);
    if number * each <= 31_536_000 {
        lemma_ceil_whole(number * each);
    }
    crate::text::numbers_are_read_back(number, none);
    lemma_number_prefix(digits, none);
    assert(digits + none =~= digits);
    assert(digits.skip(digits.len() as int) =~= none);
    assert(total(digits, 0) is None);
}

/// The parts of a duration add up.
pub proof fn parts_of_durations_add_up(
    number: nat,
    letter: char,
    each: nat,
    other: nat,
    other_letter: char,
    other_each: nat,
)
    requires
        stands_for_seconds(letter, each),
        stands_for_seconds(other_letter, other_each),
        number <= 0x20_0000_0000_0000,
        other <= 0x20_0000_0000_0000,
        number * each + other * other_each <= 365 * 24 * 60 * 60,
    ensures
        seconds(
            crate::text::decimal_text(number) + seq![letter] + (crate::text::decimal_text(other)
                + seq![other_letter]),
        ) == Some((number * each + other * other_each) as u64),
{
    let none = Seq::<char>::empty();
    let first = crate::text::decimal_text(number);
    let second = crate::text::decimal_text(other);
    let more = second + seq![other_letter];
    crate::text::numbers_are_read_back(other, none);
    assert(more[0] == second[0]);
    assert(crate::text::is_digit(second[0]));
    assert(number * each >= 0 && other * other_each >= 0) by (nonlinear_arith);
    lemma_total_part(number, letter, each, more, 0);
    assert(0 * one() == 0);
    lemma_total_part(other, other_letter, other_each, none, number * each);
    assert(second + seq![other_letter] + none =~= more);
    lemma_ceil_whole(number * each + other * other_each);
}

/// The letters of a duration, and the two that stand for a thousandth of a second.
pub proof fn letters_of_durations(more: Seq<char>)
    ensures
        unit(seq!['m', 's'] + more) == Some((2nat, crate::double::nearest_double(1, 1000))),
        more.len() > 0 && more[0] != 'd' && more[0] != 'h' && more[0] != 'm' && more[0] != 's'
            ==> unit(more) is None,
        LONGEST == 365 * 24 * 60 * 60,
{
    let text = seq!['m', 's'] + more;
    assert(text[0] == 'm' && text[1] == 's');
}

} // verus!
