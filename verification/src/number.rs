//! Decimal numbers in text, as a double is read from them.
//!
//! A number has digits with at most one point among them, a sign before it where it has one, and an
//! exponent behind it where it has one: `12`, `-0.5`, `+1.`, `.5e-3`.
use crate::double::all_zero;
use crate::double::decimal;
use crate::double::round;
use crate::double::Double;
use crate::duration::digits_of;
use crate::level::Level;
use crate::level::SIGN;
use crate::text::chars_of;
use vstd::arithmetic::power::pow;
use vstd::arithmetic::power2::*;
use vstd::prelude::*;

verus! {

/// Exponents up to this one are told apart.
const FAR: i128 = 0x10_0000_0000_0000_0000_0000_0000;

/// A letter that an exponent starts with.
pub open spec fn is_mark(letter: char) -> bool {
    letter == 'e' || letter == 'E'
}

/// How many characters stand before an exponent.
pub open spec fn significand_length(text: Seq<char>) -> nat
    decreases text.len(),
{
    if text.len() > 0 && !is_mark(text[0]) {
        1 + significand_length(text.drop_first())
    } else {
        0
    }
}

/// A text without the sign that it starts with, where it starts with one.
pub open spec fn unsigned(text: Seq<char>) -> Seq<char> {
    if text.len() > 0 && (text[0] == '+' || text[0] == '-') {
        text.drop_first()
    } else {
        text
    }
}

/// A text that starts with a minus sign.
pub open spec fn negative(text: Seq<char>) -> bool {
    text.len() > 0 && text[0] == '-'
}

/// The power of ten that an exponent stands for: digits, a sign before them where there is one.
pub open spec fn exponent(text: Seq<char>) -> Option<int> {
    let digits = unsigned(text);
    if digits.len() == 0 || !crate::text::all_digits(digits) {
        None
    } else if negative(text) {
        Some(-(crate::text::digits_value(digits) as int))
    } else {
        Some(crate::text::digits_value(digits) as int)
    }
}

/// The digits of a significand as a whole number, and how many of them stand behind the point.
pub open spec fn significand(text: Seq<char>) -> Option<(nat, nat)> {
    let point = crate::duration::whole_length(text) as int;
    let whole = text.take(point);
    let fraction = if point < text.len() {
        text.skip(point + 1)
    } else {
        Seq::empty()
    };
    if crate::text::all_digits(whole) && crate::text::all_digits(fraction) && whole.len()
        + fraction.len() > 0 {
        Some(
            (
                (crate::text::digits_value(whole) * pow(10, fraction.len())
                    + crate::text::digits_value(fraction)) as nat,
                fraction.len(),
            ),
        )
    } else {
        None
    }
}

/// A number that text spells without its sign: a whole number, and the power of ten that it is
/// multiplied with.
pub open spec fn spelled(text: Seq<char>) -> Option<(nat, int)> {
    let length = significand_length(text) as int;
    match significand(text.take(length)) {
        Some((digits, places)) => if length == text.len() {
            Some((digits, -(places as int)))
        } else {
            match exponent(text.skip(length + 1)) {
                Some(power) => Some((digits, power - places)),
                None => None,
            }
        },
        None => None,
    }
}

/// The double nearest to a whole number times a power of ten.
pub open spec fn scaled(digits: nat, power: int) -> nat {
    if power >= 0 {
        crate::double::nearest_double((digits * pow(10, power as nat)) as nat, 1)
    } else {
        crate::double::nearest_double(digits, pow(10, (-power) as nat) as nat)
    }
}

/// The finite number that a text spells.
pub open spec fn number(text: Seq<char>) -> Option<Level> {
    match spelled(unsigned(text)) {
        Some((digits, power)) => {
            let units = scaled(digits, power);
            if units >= crate::double::infinite_units() {
                None
            } else if negative(text) {
                Some(Level { bits: (crate::double::level_of(units).bits + SIGN) as u64 })
            } else {
                Some(crate::double::level_of(units))
            }
        },
        None => None,
    }
}

proof fn lemma_concatenated(a: Seq<u8>, b: Seq<u8>)
    ensures
        crate::percent::value(a + b) == crate::percent::value(a) + pow(10, a.len())
            * crate::percent::value(b),
    decreases a.len(),
{
    reveal(pow);
    if a.len() == 0 {
        assert(a + b =~= b);
    } else {
        let rest = a.drop_first();
        assert((a + b).drop_first() =~= rest + b);
        lemma_concatenated(rest, b);
        let ten = pow(10, rest.len());
        let tail = crate::percent::value(b);
        assert(10 * (ten * tail) == (10 * ten) * tail) by (nonlinear_arith);
    }
}

proof fn lemma_zeros(digits: Seq<u8>)
    requires
        forall|i: int| 0 <= i < digits.len() ==> #[trigger] digits[i] == 0,
    ensures
        crate::percent::value(digits) == 0,
    decreases digits.len(),
{
    if digits.len() > 0 {
        let rest = digits.drop_first();
        assert forall|i: int| 0 <= i < rest.len() implies #[trigger] rest[i] == 0 by {
            assert(rest[i] == digits[i + 1]);
        }
        lemma_zeros(rest);
        assert(digits[0] == 0);
    }
}

proof fn lemma_tens(k: nat)
    ensures
        pow(10, k) >= pow2(3 * k),
    decreases k,
{
    reveal(pow);
    lemma2_to64();
    if k > 0 {
        lemma_tens((k - 1) as nat);
        lemma_pow2_adds((3 * k - 3) as nat, 3);
        let ten = pow(10, (k - 1) as nat);
        let two = pow2((3 * k - 3) as nat);
        assert(10 * ten >= two * 8) by (nonlinear_arith)
            requires
                ten >= two,
                two >= 0,
        ;
    }
}

/// Halves the digits of a whole number, the last digit first, and tells whether it was odd.
fn halve(digits: &mut Vec<u8>) -> (odd: bool)
    requires
        forall|i: int| 0 <= i < old(digits)@.len() ==> #[trigger] old(digits)@[i] < 10,
    ensures
        final(digits)@.len() == old(digits)@.len(),
        forall|i: int| 0 <= i < final(digits)@.len() ==> #[trigger] final(digits)@[i] < 10,
        crate::percent::value(old(digits)@) == 2 * crate::percent::value(final(digits)@) + if odd {
            1nat
        } else {
            0nat
        },
{
    let ghost before = digits@;
    let count: usize = digits.len();
    let mut i: usize = count;
    let mut carry: u8 = 0;
    proof {
        assert(before.skip(count as int) =~= Seq::<u8>::empty());
    }
    while i > 0
        invariant
            i <= count,
            count == digits@.len(),
            before.len() == count,
            carry <= 1,
            forall|k: int| 0 <= k < count ==> #[trigger] before[k] < 10,
            forall|k: int| 0 <= k < count ==> #[trigger] digits@[k] < 10,
            forall|k: int| 0 <= k < i ==> #[trigger] digits@[k] == before[k],
            crate::percent::value(before.skip(i as int)) == 2 * crate::percent::value(
                digits@.skip(i as int),
            ) + carry,
        decreases i,
    {
        let ghost done = digits@.skip(i as int);
        i = i - 1;
        let digit: u8 = digits[i];
        assert(digit == before[i as int]);
        let with_carry: u8 = carry * 10 + digit;
        let half: u8 = with_carry / 2;
        digits.set(i, half);
        carry = with_carry % 2;
        proof {
            assert(digits@.skip(i as int).drop_first() =~= done);
            assert(before.skip(i as int).drop_first() =~= before.skip(i + 1));
        }
    }
    proof {
        assert(before.skip(0) =~= before);
        assert(digits@.skip(0) =~= digits@);
    }
    carry == 1
}

/// The value of digits, the last digit first, or `None` where it is above `2^100`.
fn small_value(digits: &Vec<u8>) -> (found: Option<u128>)
    requires
        forall|i: int| 0 <= i < digits@.len() ==> #[trigger] digits@[i] < 10,
    ensures
        match found {
            Some(value) => value <= 0x10_0000_0000_0000_0000_0000_0000 && value
                == crate::percent::value(digits@),
            None => crate::percent::value(digits@) > 0x10_0000_0000_0000_0000_0000_0000,
        },
{
    let mut value: u128 = 0;
    let mut i: usize = digits.len();
    assert(digits@.skip(digits@.len() as int) =~= Seq::<u8>::empty());
    while i > 0
        invariant
            i <= digits@.len(),
            forall|k: int| 0 <= k < digits@.len() ==> #[trigger] digits@[k] < 10,
            value <= 0x10_0000_0000_0000_0000_0000_0000,
            value == crate::percent::value(digits@.skip(i as int)),
        decreases i,
    {
        i = i - 1;
        assert(digits@.skip(i as int).drop_first() =~= digits@.skip(i + 1));
        value = value * 10 + digits[i] as u128;
        if value > 0x10_0000_0000_0000_0000_0000_0000 {
            proof {
                lemma_value_at_least(digits@, i as int);
            }
            return None;
        }
    }
    assert(digits@.skip(0) =~= digits@);
    Some(value)
}

proof fn lemma_value_at_least(digits: Seq<u8>, i: int)
    requires
        0 <= i <= digits.len(),
    ensures
        crate::percent::value(digits) >= crate::percent::value(digits.skip(i)),
    decreases i,
{
    if i > 0 {
        assert(digits.skip(i - 1).drop_first() =~= digits.skip(i));
        lemma_value_at_least(digits, i - 1);
    } else {
        assert(digits.skip(0) =~= digits);
    }
}

/// The double nearest to a decimal number: the digits before and after the point, the last digit
/// first.
spec fn placed(whole: Seq<u8>, fraction: Seq<u8>) -> nat {
    crate::double::nearest_double(
        (crate::percent::value(whole) * pow(10, fraction.len()) + crate::percent::value(
            fraction,
        )) as nat,
        pow(10, fraction.len()) as nat,
    )
}

/// Works out the double nearest to a decimal number.
fn decimal_of(whole: Vec<u8>, fraction: Vec<u8>) -> (number: Double)
    requires
        whole@.len() <= 400,
        forall|i: int| 0 <= i < whole@.len() ==> #[trigger] whole@[i] < 10,
        forall|i: int| 0 <= i < fraction@.len() ==> #[trigger] fraction@[i] < 10,
    ensures
        number.wf(),
        number.units() == placed(whole@, fraction@),
{
    let ghost start = crate::percent::value(whole@);
    let ghost part = crate::percent::value(fraction@);
    let ghost b = pow(10, fraction@.len()) as nat;
    let ghost a = (start * pow(10, fraction@.len()) + part) as nat;
    let mut digits = whole;
    let mut halvings: u64 = 0;
    let mut odd = false;
    let ghost mut rest: nat = 0;
    proof {
        lemma2_to64();
        lemma2_to64_rest();
        crate::double::lemma_value_bounded(fraction@);
        vstd::arithmetic::power::lemma_pow_positive(10, fraction@.len());
        assert(start * pow(10, fraction@.len()) >= 0) by (nonlinear_arith)
            requires
                pow(10, fraction@.len()) > 0,
        ;
        lemma_value_limit(digits@);
    }
    loop
        invariant
            forall|i: int| 0 <= i < digits@.len() ==> #[trigger] digits@[i] < 10,
            forall|i: int| 0 <= i < fraction@.len() ==> #[trigger] fraction@[i] < 10,
            start == crate::percent::value(whole@),
            b == pow(10, fraction@.len()),
            b > 0,
            part == crate::percent::value(fraction@),
            part < b,
            a == start * b + part,
            start < pow2(1_600),
            start == crate::percent::value(digits@) * pow2(halvings as nat) + rest,
            rest < pow2(halvings as nat),
            odd == (rest > 0),
            halvings == 0 ==> crate::percent::value(digits@) == start,
            halvings > 0 ==> crate::percent::value(digits@) >= 0x8_0000_0000_0000_0000_0000_0000,
            halvings <= 1_600,
            pow2(0) == 1,
            pow2(53) == 0x20_0000_0000_0000,
        decreases crate::percent::value(digits@),
    {
        match small_value(&digits) {
            Some(value) => {
                if halvings == 0 && value < 0x20_0000_0000_0000 {
                    return decimal(value as u64, fraction);
                }
                let left = odd || !all_zero(&fraction);
                proof {
                    lemma_parts_of(a, b, start, part, value as nat, rest, halvings as nat);
                    lemma2_to64_rest();
                    lemma_pow2_adds(64, 37);
                    crate::percent::lemma_grows(101, 119);
                }
                return round(value, 1074 + halvings as i64, left, Ghost(a), Ghost(b));
            },
            None => {
                let ghost before = crate::percent::value(digits@);
                let ghost earlier = rest;
                let was_odd = halve(&mut digits);
                proof {
                    let after = crate::percent::value(digits@);
                    let p = pow2(halvings as nat);
                    let bit: nat = if was_odd {
                        1
                    } else {
                        0
                    };
                    lemma_pow2_unfold((halvings + 1) as nat);
                    lemma_pow2_pos(halvings as nat);
                    rest = earlier + bit * p;
                    assert(before * p + earlier == after * (2 * p) + (earlier + bit * p)) by (
                    nonlinear_arith)
                        requires
                            before == 2 * after + bit,
                    ;
                    assert(bit * p <= p && (bit * p > 0 <==> bit > 0)) by (nonlinear_arith)
                        requires
                            bit <= 1,
                            p > 0,
                    ;
                    if halvings >= 1_600 {
                        assert(before * p >= p) by (nonlinear_arith)
                            requires
                                before >= 1,
                                p >= 0,
                        ;
                    }
                }
                odd = odd || was_odd;
                halvings = halvings + 1;
            },
        }
    }
}

proof fn lemma_value_limit(digits: Seq<u8>)
    requires
        digits.len() <= 400,
        forall|i: int| 0 <= i < digits.len() ==> #[trigger] digits[i] < 10,
    ensures
        crate::percent::value(digits) < pow2(1_600),
{
    crate::double::lemma_value_bounded(digits);
    lemma_tens_below(digits.len());
    crate::percent::lemma_grows(4 * digits.len(), 1_600);
}

proof fn lemma_tens_below(k: nat)
    ensures
        pow(10, k) <= pow2(4 * k),
    decreases k,
{
    reveal(pow);
    lemma2_to64();
    if k > 0 {
        lemma_tens_below((k - 1) as nat);
        lemma_pow2_adds((4 * k - 4) as nat, 4);
        let ten = pow(10, (k - 1) as nat);
        let two = pow2((4 * k - 4) as nat);
        assert(10 * ten <= two * 16) by (nonlinear_arith)
            requires
                ten <= two,
                two >= 0,
        ;
    }
}

/// The parts of a decimal number whose whole part was halved.
proof fn lemma_parts_of(
    a: nat,
    b: nat,
    start: nat,
    part: nat,
    value: nat,
    rest: nat,
    halvings: nat,
)
    requires
        b > 0,
        part < b,
        a == start * b + part,
        start == value * pow2(halvings) + rest,
        rest < pow2(halvings),
    ensures
        crate::double::has_parts(a, b, (1074 + halvings) as int, value, rest > 0 || part > 0),
{
    let p = pow2(halvings);
    let one = crate::double::one();
    lemma_pow2_pos(1074);
    lemma_pow2_pos(halvings);
    lemma_pow2_adds(1074, halvings);
    let left = rest * b + part;
    assert(a * one == value * (b * (one * p)) + left * one) by (nonlinear_arith)
        requires
            a == start * b + part,
            start == value * p + rest,
            left == rest * b + part,
    ;
    assert(left * one < b * (one * p)) by (nonlinear_arith)
        requires
            left == rest * b + part,
            rest + 1 <= p,
            part < b,
            one > 0,
    ;
    assert(left * one != 0 <==> rest > 0 || part > 0) by (nonlinear_arith)
        requires
            left == rest * b + part,
            b > 0,
            one > 0,
    ;
    crate::double::lemma_parts(a, b, (1074 + halvings) as int, value, left * one);
}

/// Takes the zeros off that stand before the first digit of a whole number.
fn strip(digits: &mut Vec<u8>)
    requires
        forall|i: int| 0 <= i < old(digits)@.len() ==> #[trigger] old(digits)@[i] < 10,
    ensures
        crate::percent::value(final(digits)@) == crate::percent::value(old(digits)@),
        forall|i: int| 0 <= i < final(digits)@.len() ==> #[trigger] final(digits)@[i] < 10,
        final(digits)@.len() > 0 ==> final(digits)@.last() != 0,
{
    while digits.len() > 0 && digits[digits.len() - 1] == 0
        invariant
            crate::percent::value(digits@) == crate::percent::value(old(digits)@),
            forall|i: int| 0 <= i < digits@.len() ==> #[trigger] digits@[i] < 10,
        decreases digits@.len(),
    {
        proof {
            lemma_last(digits@);
            assert(pow(10, (digits@.len() - 1) as nat) * 0 == 0);
        }
        let ghost shorter = digits@.drop_last();
        digits.pop();
        assert(digits@ =~= shorter);
    }
}

proof fn lemma_last(digits: Seq<u8>)
    requires
        digits.len() > 0,
    ensures
        crate::percent::value(digits) == crate::percent::value(digits.drop_last()) + pow(
            10,
            (digits.len() - 1) as nat,
        ) * digits.last(),
{
    let last = seq![digits.last()];
    assert(digits =~= digits.drop_last() + last);
    lemma_concatenated(digits.drop_last(), last);
    assert(last.drop_first() =~= Seq::<u8>::empty());
    assert(crate::percent::value(last.drop_first()) == 0);
    assert(crate::percent::value(last) == digits.last());
}

/// A number whose first digit stands far before the point is too great for a double.
proof fn lemma_too_great(digits: Seq<u8>, power: int)
    requires
        digits.len() > 0,
        digits.last() != 0,
        digits.len() + power > 342,
    ensures
        scaled(crate::percent::value(digits), power) >= crate::double::infinite_units(),
{
    let value = crate::percent::value(digits);
    let first = (digits.len() - 1) as nat;
    let ten = pow(10, first);
    vstd::arithmetic::power::lemma_pow_positive(10, first);
    lemma_last(digits);
    assert(ten * digits.last() >= ten) by (nonlinear_arith)
        requires
            ten > 0,
            digits.last() >= 1,
    ;
    assert(value >= ten);
    lemma_pow2_adds(1024, 1074);
    if power >= 0 {
        let scale = pow(10, power as nat);
        vstd::arithmetic::power::lemma_pow_positive(10, power as nat);
        vstd::arithmetic::power::lemma_pow_adds(10, first, power as nat);
        lemma_tens(first + power as nat);
        crate::percent::lemma_grows(1024, 3 * (first + power as nat));
        assert(value * scale >= ten * scale) by (nonlinear_arith)
            requires
                value >= ten,
                scale > 0,
        ;
        crate::double::rounding_keeps_powers((value * scale) as nat, 1, 1024);
    } else {
        let places = (-power) as nat;
        let scale = pow(10, places);
        let rest = (first - places) as nat;
        vstd::arithmetic::power::lemma_pow_positive(10, places);
        vstd::arithmetic::power::lemma_pow_adds(10, places, rest);
        lemma_tens(rest);
        crate::percent::lemma_grows(1024, 3 * rest);
        assert(scale * pow(10, rest) >= scale * pow2(1024)) by (nonlinear_arith)
            requires
                pow(10, rest) >= pow2(1024),
                scale > 0,
        ;
        crate::double::rounding_keeps_powers(value, scale as nat, 1024);
    }
}

/// A number whose first digit stands far behind the point is too small for a double.
proof fn lemma_too_small(digits: Seq<u8>, power: int)
    requires
        forall|i: int| 0 <= i < digits.len() ==> #[trigger] digits[i] < 10,
        digits.len() + power < -400,
    ensures
        scaled(crate::percent::value(digits), power) == 0,
{
    let value = crate::percent::value(digits);
    let places = (-power) as nat;
    let ten = pow(10, digits.len());
    let rest = (places - digits.len()) as nat;
    crate::double::lemma_value_bounded(digits);
    vstd::arithmetic::power::lemma_pow_adds(10, digits.len(), rest);
    lemma_tens(rest);
    crate::percent::lemma_grows(1075, 3 * rest);
    lemma_pow2_unfold(1075);
    lemma_pow2_pos(1074);
    let one = crate::double::one();
    assert(2 * (value * one) < ten * pow(10, rest)) by (nonlinear_arith)
        requires
            value < ten,
            one > 0,
            pow(10, rest) >= 2 * one,
    ;
    crate::double::lemma_vanishes(value, pow(10, places) as nat);
}

proof fn lemma_zero(power: int)
    ensures
        scaled(0, power) == 0,
{
    if power >= 0 {
        assert(0 * pow(10, power as nat) == 0);
        crate::double::lemma_vanishes(0, 1);
    } else {
        vstd::arithmetic::power::lemma_pow_positive(10, (-power) as nat);
        crate::double::lemma_vanishes(0, pow(10, (-power) as nat) as nat);
    }
}

/// A run of zeros.
fn zeros(count: usize) -> (digits: Vec<u8>)
    ensures
        digits@.len() == count,
        forall|i: int| 0 <= i < digits@.len() ==> #[trigger] digits@[i] == 0,
{
    let mut digits: Vec<u8> = Vec::new();
    let mut i: usize = 0;
    while i < count
        invariant
            i <= count,
            digits@.len() == i,
            forall|k: int| 0 <= k < digits@.len() ==> #[trigger] digits@[k] == 0,
        decreases count - i,
    {
        digits.push(0);
        i = i + 1;
    }
    digits
}

proof fn lemma_zeros_behind(digits: Seq<u8>, zeros: Seq<u8>)
    requires
        forall|i: int| 0 <= i < zeros.len() ==> #[trigger] zeros[i] == 0,
    ensures
        placed(zeros + digits, Seq::empty()) == scaled(
            crate::percent::value(digits),
            zeros.len() as int,
        ),
{
    let value = crate::percent::value(digits);
    let ten = pow(10, zeros.len());
    lemma_zeros(zeros);
    lemma_concatenated(zeros, digits);
    assert(value * ten == ten * value) by (nonlinear_arith);
    reveal(pow);
    assert(pow(10, 0) == 1);
    assert(crate::percent::value(Seq::empty()) == 0);
}

proof fn lemma_point_within(fraction: Seq<u8>, whole: Seq<u8>)
    ensures
        placed(whole, fraction) == scaled(
            crate::percent::value(fraction + whole),
            -(fraction.len() as int),
        ),
{
    let value = crate::percent::value(whole);
    let ten = pow(10, fraction.len());
    lemma_concatenated(fraction, whole);
    assert(value * ten == ten * value) by (nonlinear_arith);
    if fraction.len() == 0 {
        reveal(pow);
        assert(value * 1 == value);
    }
}

proof fn lemma_zeros_before(digits: Seq<u8>, zeros: Seq<u8>)
    requires
        forall|i: int| 0 <= i < zeros.len() ==> #[trigger] zeros[i] == 0,
        zeros.len() > 0,
    ensures
        placed(Seq::empty(), digits + zeros) == scaled(
            crate::percent::value(digits),
            -((digits.len() + zeros.len()) as int),
        ),
{
    let ten = pow(10, digits.len());
    let all = pow(10, (digits + zeros).len());
    lemma_zeros(zeros);
    lemma_concatenated(digits, zeros);
    assert(ten * 0 == 0) by (nonlinear_arith);
    assert(0 * all == 0) by (nonlinear_arith);
    assert(crate::percent::value(Seq::empty()) == 0);
}

/// The power of ten of a number, or a stand-in for one that is far from zero.
spec fn stands_for(power: int, exact: int) -> bool {
    ||| power == exact
    ||| power > 0x1_0000_0000_0000_0000_0000 && exact > 0x1_0000_0000_0000_0000_0000
    ||| power < -0x1_0000_0000_0000_0000_0000 && exact < -0x1_0000_0000_0000_0000_0000
}

/// The double nearest to digits, the last digit first, times a power of ten; `None` where that is
/// too great for any double.
fn scale(digits: Vec<u8>, power: i128, Ghost(exact): Ghost<int>) -> (number: Option<Double>)
    requires
        forall|i: int| 0 <= i < digits@.len() ==> #[trigger] digits@[i] < 10,
        stands_for(power as int, exact),
        -0x20_0000_0000_0000_0000_0000_0000 <= power <= 0x20_0000_0000_0000_0000_0000_0000,
    ensures
        match number {
            Some(found) => found.wf() && found.units() == scaled(
                crate::percent::value(digits@),
                exact,
            ),
            None => scaled(crate::percent::value(digits@), exact)
                >= crate::double::infinite_units(),
        },
{
    let mut digits = digits;
    strip(&mut digits);
    let count: i128 = digits.len() as i128;
    let ghost value = crate::percent::value(digits@);
    if count == 0 {
        proof {
            lemma_zero(exact);
        }
        return Some(Double::zero());
    }
    if count + power > 342 {
        proof {
            lemma_too_great(digits@, exact);
        }
        return None;
    }
    if count + power < -400 {
        proof {
            lemma_too_small(digits@, exact);
        }
        return Some(Double::zero());
    }
    if power >= 0 {
        let mut whole = zeros(power as usize);
        let ghost front = whole@;
        let ghost back = digits@;
        whole.append(&mut digits);
        let fraction: Vec<u8> = Vec::new();
        proof {
            assert(whole@ =~= front + back);
            lemma_zeros_behind(back, front);
        }
        Some(decimal_of(whole, fraction))
    } else {
        let places: i128 = 0 - power;
        if places <= count {
            let ghost all = digits@;
            let whole = digits.split_off(places as usize);
            proof {
                assert(all =~= digits@ + whole@);
                lemma_point_within(digits@, whole@);
            }
            Some(decimal_of(whole, digits))
        } else {
            let ghost front = digits@;
            let mut behind = zeros((places - count) as usize);
            let ghost back = behind@;
            digits.append(&mut behind);
            let whole: Vec<u8> = Vec::new();
            proof {
                assert(digits@ =~= front + back);
                lemma_zeros_before(front, back);
            }
            Some(decimal_of(whole, digits))
        }
    }
}

proof fn lemma_significand_length(text: Seq<char>, n: int)
    requires
        0 <= n <= text.len(),
        forall|i: int| 0 <= i < n ==> !is_mark(#[trigger] text[i]),
        n < text.len() ==> is_mark(text[n]),
    ensures
        significand_length(text) == n,
    decreases n,
{
    if n > 0 {
        let rest = text.drop_first();
        assert forall|i: int| 0 <= i < n - 1 implies !is_mark(#[trigger] rest[i]) by {
            assert(rest[i] == text[i + 1]);
        }
        lemma_significand_length(rest, n - 1);
    }
}

/// Whether all characters from `from` up to `to` are digits.
fn are_digits(chars: &Vec<char>, from: usize, to: usize) -> (yes: bool)
    requires
        from <= to <= chars@.len(),
    ensures
        yes == crate::text::all_digits(chars@.subrange(from as int, to as int)),
{
    let ghost text = chars@.subrange(from as int, to as int);
    let mut i: usize = from;
    while i < to
        invariant
            from <= i <= to <= chars@.len(),
            text == chars@.subrange(from as int, to as int),
            forall|k: int| 0 <= k < i - from ==> crate::text::is_digit(#[trigger] text[k]),
        decreases to - i,
    {
        assert(text[i - from] == chars@[i as int]);
        if chars[i] < '0' || chars[i] > '9' {
            return false;
        }
        i = i + 1;
    }
    true
}

/// The significand from `from` up to `to`: its digits, the last one first, and how many of them
/// stand behind the point.
fn significand_of(chars: &Vec<char>, from: usize, to: usize) -> (found: Option<(Vec<u8>, usize)>)
    requires
        from <= to <= chars@.len(),
    ensures
        match found {
            Some((digits, places)) => significand(chars@.subrange(from as int, to as int)) == Some(
                (crate::percent::value(digits@), places as nat),
            ) && (forall|i: int| 0 <= i < digits@.len() ==> #[trigger] digits@[i] < 10),
            None => significand(chars@.subrange(from as int, to as int)) is None,
        },
{
    let ghost text = chars@.subrange(from as int, to as int);
    let mut point: usize = from;
    while point < to && chars[point] != '.'
        invariant
            from <= point <= to <= chars@.len(),
            forall|i: int| from <= i < point ==> #[trigger] chars@[i] != '.',
        decreases to - point,
    {
        point = point + 1;
    }
    let start: usize = if point < to {
        point + 1
    } else {
        to
    };
    let ghost whole = chars@.subrange(from as int, point as int);
    let ghost fraction = chars@.subrange(start as int, to as int);
    proof {
        assert forall|i: int| 0 <= i < point - from implies #[trigger] text[i] != '.' by {
            assert(text[i] == chars@[from + i]);
        }
        assert(point < to ==> text[point - from] == chars@[point as int]);
        crate::duration::lemma_whole_length(text, point - from);
        assert(whole =~= text.take(point - from));
        assert(fraction =~= if point < to {
            text.skip(point - from + 1)
        } else {
            Seq::empty()
        });
    }
    if !are_digits(chars, from, point) || !are_digits(chars, start, to) || (point == from && start
        == to) {
        return None;
    }
    let mut digits = digits_of(chars, start, to);
    let mut before = digits_of(chars, from, point);
    let ghost back = digits@;
    let ghost front = before@;
    digits.append(&mut before);
    proof {
        assert(digits@ =~= back + front);
        lemma_concatenated(back, front);
        let ten = pow(10, back.len());
        let value = crate::percent::value(front);
        assert(value * ten == ten * value) by (nonlinear_arith);
    }
    Some((digits, to - start))
}

/// The exponent from `from` on, or a stand-in for one that is far from zero.
fn exponent_of(chars: &Vec<char>, from: usize) -> (power: Option<i128>)
    requires
        from <= chars@.len(),
    ensures
        match power {
            Some(found) => exponent(chars@.skip(from as int)) matches Some(exact) && {
                ||| found == exact && -FAR <= exact <= FAR
                ||| found == FAR + 1 && exact > FAR
                ||| found == -FAR - 1 && exact < -FAR
            },
            None => exponent(chars@.skip(from as int)) is None,
        },
{
    let ghost text = chars@.skip(from as int);
    let minus = from < chars.len() && chars[from] == '-';
    let start: usize = if from < chars.len() && (chars[from] == '+' || chars[from] == '-') {
        from + 1
    } else {
        from
    };
    let ghost digits = chars@.subrange(start as int, chars@.len() as int);
    assert(digits =~= unsigned(text));
    if start == chars.len() || !are_digits(chars, start, chars.len()) {
        return None;
    }
    let all = digits_of(chars, start, chars.len());
    let size: i128 = match small_value(&all) {
        Some(value) => value as i128,
        None => FAR + 1,
    };
    if minus {
        Some(0 - size)
    } else {
        Some(size)
    }
}

/// The number from `from` on, without a sign: its digits, the last one first, and the power of ten
/// that they are multiplied with, or a stand-in for one that is far from zero.
fn spelled_from(chars: &Vec<char>, from: usize) -> (found: Option<(Vec<u8>, i128, Ghost<int>)>)
    requires
        from <= chars@.len(),
    ensures
        match found {
            Some((digits, power, exact)) => {
                &&& spelled(chars@.skip(from as int)) == Some(
                    (crate::percent::value(digits@), exact@),
                )
                &&& forall|i: int| 0 <= i < digits@.len() ==> #[trigger] digits@[i] < 10
                &&& stands_for(power as int, exact@)
                &&& -2 * FAR <= power <= 2 * FAR
            },
            None => spelled(chars@.skip(from as int)) is None,
        },
{
    let ghost text = chars@.skip(from as int);
    let mut mark: usize = from;
    while mark < chars.len() && chars[mark] != 'e' && chars[mark] != 'E'
        invariant
            from <= mark <= chars@.len(),
            forall|i: int| from <= i < mark ==> !is_mark(#[trigger] chars@[i]),
        decreases chars@.len() - mark,
    {
        mark = mark + 1;
    }
    proof {
        assert forall|i: int| 0 <= i < mark - from implies !is_mark(#[trigger] text[i]) by {
            assert(text[i] == chars@[from + i]);
        }
        assert(mark < chars@.len() ==> text[mark - from] == chars@[mark as int]);
        lemma_significand_length(text, mark - from);
        assert(text.take(mark - from) =~= chars@.subrange(from as int, mark as int));
    }
    match significand_of(chars, from, mark) {
        Some((digits, places)) => if mark == chars.len() {
            Some((digits, 0 - places as i128, Ghost(-(places as int))))
        } else {
            assert(text.skip(mark - from + 1) =~= chars@.skip(mark + 1));
            match exponent_of(chars, mark + 1) {
                Some(power) => Some(
                    (
                        digits,
                        power - places as i128,
                        Ghost(exponent(chars@.skip(mark + 1))->0 - places),
                    ),
                ),
                None => None,
            }
        },
        None => None,
    }
}

/// Reads the finite number that a text spells.
pub fn parse_number(text: &str) -> (found: Option<Level>)
    ensures
        found == number(text@),
{
    let chars = chars_of(text);
    let minus = chars.len() > 0 && chars[0] == '-';
    let start: usize = if chars.len() > 0 && (chars[0] == '+' || chars[0] == '-') {
        1
    } else {
        0
    };
    assert(chars@.skip(start as int) =~= unsigned(text@));
    match spelled_from(&chars, start) {
        Some((digits, power, exact)) => match scale(digits, power, exact) {
            Some(size) => if size.cap().power == 2046 {
                None
            } else {
                let level = size.level();
                if minus {
                    Some(Level { bits: level.bits + SIGN })
                } else {
                    Some(level)
                }
            },
            None => None,
        },
        None => None,
    }
}

proof fn lemma_significand(text: Seq<char>, more: Seq<char>)
    requires
        forall|i: int| 0 <= i < text.len() ==> !is_mark(#[trigger] text[i]),
        more.len() == 0 || is_mark(more[0]),
    ensures
        significand_length(text + more) == text.len(),
    decreases text.len(),
{
    let all = text + more;
    if text.len() == 0 {
        assert(all =~= more);
    } else {
        assert(all[0] == text[0]);
        let rest = text.drop_first();
        assert forall|i: int| 0 <= i < rest.len() implies !is_mark(#[trigger] rest[i]) by {
            assert(rest[i] == text[i + 1]);
        }
        assert(all.drop_first() =~= rest + more);
        lemma_significand(rest, more);
    }
}

proof fn lemma_exact(digits: nat, places: nat, level: Level)
    requires
        crate::double::is_plain(level),
        crate::double::level_units(level) < crate::double::infinite_units(),
        crate::double::level_units(level) * pow(10, places) == digits * crate::double::one(),
    ensures
        scaled(digits, -(places as int)) == crate::double::level_units(level),
        crate::double::level_of(scaled(digits, -(places as int))) == level,
{
    let units = crate::double::level_units(level);
    let parts = pow(10, places) as nat;
    vstd::arithmetic::power::lemma_pow_positive(10, places);
    vstd::arithmetic::power2::lemma_pow2_pos(1074);
    assert(digits * crate::double::one() == units * parts);
    crate::double::lemma_same_quotient(digits, parts, units, crate::double::one());
    crate::double::doubles_are_exact(
        crate::percent::mantissa(level),
        (crate::percent::scale(level) + 1074) as nat,
    );
    crate::double::level_of_its_units(level);
    if places == 0 {
        vstd::arithmetic::power::lemma_pow0(10);
        let single = pow(10, 0);
        assert(digits * single == digits) by (nonlinear_arith)
            requires
                single == 1,
        ;
    }
}

proof fn lemma_signless(text: Seq<char>)
    requires
        text.len() > 0,
        crate::text::is_digit(text[0]) || text[0] == '.',
    ensures
        unsigned(text) == text,
        !negative(text),
        unsigned(seq!['+'] + text) == text,
        !negative(seq!['+'] + text),
        unsigned(seq!['-'] + text) == text,
        negative(seq!['-'] + text),
{
    assert((seq!['+'] + text).drop_first() =~= text);
    assert((seq!['-'] + text).drop_first() =~= text);
}

proof fn lemma_spelled_whole(whole: Seq<char>)
    requires
        crate::text::all_digits(whole),
        whole.len() > 0,
    ensures
        spelled(whole) == Some((crate::text::digits_value(whole), 0int)),
{
    let none = Seq::<char>::empty();
    assert forall|i: int| 0 <= i < whole.len() implies !is_mark(#[trigger] whole[i]) by {
        assert(crate::text::is_digit(whole[i]));
    }
    lemma_significand(whole, none);
    assert(whole + none =~= whole);
    crate::duration::lemma_digits_before_point(whole, none);
    assert(whole.take(whole.len() as int) =~= whole);
    vstd::arithmetic::power::lemma_pow0(10);
    assert(crate::text::digits_value(none) == 0);
    assert(crate::text::digits_value(whole) * 1 + 0 == crate::text::digits_value(whole));
}

proof fn lemma_spelled_decimal(whole: Seq<char>, fraction: Seq<char>)
    requires
        crate::text::all_digits(whole),
        crate::text::all_digits(fraction),
        whole.len() + fraction.len() > 0,
    ensures
        spelled(whole + seq!['.'] + fraction) == Some(
            (
                (crate::text::digits_value(whole) * pow(10, fraction.len())
                    + crate::text::digits_value(fraction)) as nat,
                -(fraction.len() as int),
            ),
        ),
{
    let none = Seq::<char>::empty();
    let text = whole + seq!['.'] + fraction;
    assert forall|i: int| 0 <= i < text.len() implies !is_mark(#[trigger] text[i]) by {
        if i < whole.len() {
            assert(text[i] == whole[i]);
            assert(crate::text::is_digit(whole[i]));
        } else if i > whole.len() {
            assert(text[i] == fraction[i - whole.len() - 1]);
            assert(crate::text::is_digit(fraction[i - whole.len() - 1]));
        }
    }
    lemma_significand(text, none);
    assert(text + none =~= text);
    assert(text.take(text.len() as int) =~= text);
    let behind = seq!['.'] + fraction;
    assert(text =~= whole + behind);
    crate::duration::lemma_digits_before_point(whole, behind);
    assert(text.take(whole.len() as int) =~= whole);
    assert(text.skip(whole.len() as int + 1) =~= fraction);
}

/// A number is read as what its digits say, before and behind the point, wherever that is a number
/// that can be held exactly; a minus sign makes it negative, and a plus sign changes nothing.
pub proof fn decimals_are_read(whole: Seq<char>, fraction: Seq<char>, level: Level)
    requires
        crate::text::all_digits(whole),
        crate::text::all_digits(fraction),
        whole.len() + fraction.len() > 0,
        crate::double::is_plain(level),
        crate::double::level_units(level) < crate::double::infinite_units(),
        crate::double::level_units(level) * pow(10, fraction.len()) == (crate::text::digits_value(
            whole,
        ) * pow(10, fraction.len()) + crate::text::digits_value(fraction)) * crate::double::one(),
    ensures
        number(whole + seq!['.'] + fraction) == Some(level),
        number(seq!['+'] + (whole + seq!['.'] + fraction)) == Some(level),
        number(seq!['-'] + (whole + seq!['.'] + fraction)) == Some(
            Level { bits: (level.bits + SIGN) as u64 },
        ),
{
    let text = whole + seq!['.'] + fraction;
    let tens = pow(10, fraction.len());
    let front = crate::text::digits_value(whole);
    vstd::arithmetic::power::lemma_pow_positive(10, fraction.len());
    assert(front * tens >= 0) by (nonlinear_arith)
        requires
            tens > 0,
            front >= 0,
    ;
    let value = (front * tens + crate::text::digits_value(fraction)) as nat;
    lemma_spelled_decimal(whole, fraction);
    if whole.len() > 0 {
        assert(text[0] == whole[0]);
        assert(crate::text::is_digit(whole[0]));
    }
    lemma_signless(text);
    lemma_exact(value, fraction.len(), level);
}

/// A whole number is read as what it is, wherever it can be held exactly.
pub proof fn whole_numbers_are_read(whole: Seq<char>, level: Level)
    requires
        crate::text::all_digits(whole),
        whole.len() > 0,
        crate::double::is_plain(level),
        crate::double::level_units(level) < crate::double::infinite_units(),
        crate::double::level_units(level) == crate::text::digits_value(whole) * crate::double::one(),
    ensures
        number(whole) == Some(level),
        number(seq!['-'] + whole) == Some(Level { bits: (level.bits + SIGN) as u64 }),
{
    lemma_spelled_whole(whole);
    assert(crate::text::is_digit(whole[0]));
    lemma_signless(whole);
    vstd::arithmetic::power::lemma_pow0(10);
    assert(crate::double::level_units(level) * 1 == crate::double::level_units(level));
    lemma_exact(crate::text::digits_value(whole), 0, level);
}

/// An exponent moves the point: digits, `e` or `E`, a sign and a number of places.
pub proof fn exponents_move_the_point(whole: Seq<char>, mark: char, places: nat, sign: Seq<char>)
    requires
        crate::text::all_digits(whole),
        whole.len() > 0,
        mark == 'e' || mark == 'E',
        sign == Seq::<char>::empty() || sign == seq!['+'] || sign == seq!['-'],
    ensures
        spelled(whole + seq![mark] + (sign + crate::text::decimal_text(places))) == Some(
            (
                crate::text::digits_value(whole),
                if sign == seq!['-'] {
                    -(places as int)
                } else {
                    places as int
                },
            ),
        ),
{
    let none = Seq::<char>::empty();
    let digits = crate::text::decimal_text(places);
    let power = sign + digits;
    let more = seq![mark] + power;
    let text = whole + seq![mark] + power;
    assert(text =~= whole + more);
    assert forall|i: int| 0 <= i < whole.len() implies !is_mark(#[trigger] whole[i]) by {
        assert(crate::text::is_digit(whole[i]));
    }
    assert(more[0] == mark);
    lemma_significand(whole, more);
    assert(text.take(whole.len() as int) =~= whole);
    assert(text.skip(whole.len() as int + 1) =~= power);
    crate::duration::lemma_digits_before_point(whole, none);
    assert(whole + none =~= whole);
    assert(whole.take(whole.len() as int) =~= whole);
    vstd::arithmetic::power::lemma_pow0(10);
    assert(crate::text::digits_value(none) == 0);
    assert(crate::text::digits_value(whole) * 1 + 0 == crate::text::digits_value(whole));
    assert(significand(whole) == Some((crate::text::digits_value(whole), 0nat)));
    crate::text::numbers_are_read_back(places, none);
    assert(crate::text::is_digit(digits[0]));
    if sign == none {
        assert(power =~= digits);
    } else {
        assert(power[0] == sign[0]);
        assert(power.drop_first() =~= digits);
        assert(seq!['+'][0] == '+' && seq!['-'][0] == '-');
    }
    assert(none != seq!['-']) by {
        assert(none.len() != seq!['-'].len());
    }
}

} // verus!
