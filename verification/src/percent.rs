//! Numbers as text: as a double prints with no digits after the point, or with four.
//!
//! A double is a whole number times a power of two, so rounding it is a division of whole numbers.
//! A value half way between two numbers is rounded to the even one.
use crate::level::Level;
use crate::level::HUNDRED;
use crate::level::INFINITE;
use crate::level::SIGN;
use crate::text::concat;
use crate::text::concat3;
use crate::text::decimal;
use crate::text::owned;
use vstd::arithmetic::power2::*;
use vstd::prelude::*;

verus! {

/// How many bit patterns share an exponent.
pub const BINADE: u64 = 0x10_0000_0000_0000;

/// The exponent of the bit pattern of a number.
pub open spec fn exponent(level: Level) -> int {
    level.magnitude() / BINADE as int
}

/// The whole number that a number is a multiple of a power of two of.
pub open spec fn mantissa(level: Level) -> nat {
    let fraction = level.magnitude() % BINADE as int;
    if exponent(level) == 0 {
        fraction as nat
    } else {
        (fraction + BINADE) as nat
    }
}

/// The power of two that a number is a multiple of: the number is its mantissa times two to this.
pub open spec fn scale(level: Level) -> int {
    if exponent(level) == 0 {
        -1074
    } else {
        exponent(level) - 1075
    }
}

/// The whole number nearest to a quotient, the even one of two.
pub open spec fn nearest(a: nat, b: nat) -> nat {
    let quotient = a / b;
    let rest = a % b;
    if 2 * rest < b {
        quotient
    } else if 2 * rest > b {
        quotient + 1
    } else if quotient % 2 == 0 {
        quotient
    } else {
        quotient + 1
    }
}

/// The whole number nearest to a number without its sign.
pub open spec fn rounded(level: Level) -> nat {
    if scale(level) >= 0 {
        mantissa(level) * pow2(scale(level) as nat)
    } else {
        nearest(mantissa(level), pow2((-scale(level)) as nat))
    }
}

/// A number without digits after the point.
pub open spec fn whole_text(level: Level) -> Seq<char> {
    if level.magnitude() > INFINITE {
        "NaN"@
    } else {
        (if level.bits >= SIGN {
            "-"@
        } else {
            ""@
        }) + if level.magnitude() == INFINITE {
            "inf"@
        } else {
            crate::text::decimal_text(rounded(level))
        }
    }
}

/// What is left of 100 where this much is used, as a multiple of `2^-47`: the difference of two
/// doubles, which from 64 on are multiples of `2^-46`.
pub open spec fn left_units(used: Level) -> nat {
    if used.rank() <= 0 {
        100 * pow2(47)
    } else if used.rank() >= HUNDRED {
        0
    } else {
        let whole = pow2((-scale(used)) as nat);
        let left = (100 * whole - mantissa(used)) as nat;
        if left >= 64 * whole {
            nearest(left * pow2(46), whole) * 2
        } else {
            nearest(left * pow2(47), whole)
        }
    }
}

/// What is left of 100 where this much is used, without digits after the point.
pub open spec fn left_text(used: Level) -> Seq<char> {
    crate::text::decimal_text(nearest(left_units(used), pow2(47)))
}

pub(crate) fn parts(level: Level) -> (found: (u64, u64))
    ensures
        found.0 == exponent(level),
        found.1 == mantissa(level),
        found.0 <= 0x7ff,
        found.1 < 0x20_0000_0000_0000,
        found.0 > 0 ==> found.1 >= BINADE,
{
    let magnitude: u64 = if level.bits >= SIGN {
        level.bits - SIGN
    } else {
        level.bits
    };
    let power: u64 = magnitude / BINADE;
    let fraction: u64 = magnitude % BINADE;
    if power == 0 {
        (power, fraction)
    } else {
        (power, fraction + BINADE)
    }
}

pub(crate) fn power(count: u64) -> (value: u128)
    requires
        count < 120,
    ensures
        value == pow2(count as nat),
{
    let mut value: u128 = 1;
    let mut i: u64 = 0;
    proof {
        lemma2_to64();
        lemma_limits();
        lemma_grows(0, count as nat);
        lemma_grows(count as nat, 119);
    }
    while i < count
        invariant
            i <= count,
            count < 120,
            value == pow2(i as nat),
            pow2(i as nat) <= pow2(count as nat),
            pow2(count as nat) < 0x1_0000_0000_0000_0000_0000_0000_0000_0000,
        decreases count - i,
    {
        proof {
            lemma_pow2_unfold((i + 1) as nat);
            lemma_grows((i + 1) as nat, count as nat);
        }
        value = value * 2;
        i = i + 1;
    }
    value
}

pub(crate) proof fn lemma_grows(a: nat, b: nat)
    requires
        a <= b,
    ensures
        pow2(a) <= pow2(b),
    decreases b - a,
{
    if a < b {
        lemma_pow2_unfold(b);
        lemma_grows(a, (b - 1) as nat);
    }
}

pub(crate) proof fn lemma_limits()
    ensures
        pow2(46) == 0x4000_0000_0000,
        pow2(47) == 0x8000_0000_0000,
        pow2(53) == 0x20_0000_0000_0000,
        pow2(54) == 0x40_0000_0000_0000,
        pow2(119) < 0x1_0000_0000_0000_0000_0000_0000_0000_0000,
{
    lemma2_to64();
    lemma2_to64_rest();
    lemma_pow2_adds(64, 55);
}

fn nearest_to(a: u128, b: u128) -> (number: u128)
    requires
        b > 0,
        a / b < u128::MAX,
    ensures
        number == nearest(a as nat, b as nat),
{
    let quotient: u128 = a / b;
    let rest: u128 = a % b;
    if rest < b - rest {
        quotient
    } else if rest > b - rest {
        quotient + 1
    } else if quotient % 2 == 0 {
        quotient
    } else {
        quotient + 1
    }
}

pub(crate) proof fn lemma_nearest_scales(a: nat, b: nat, c: nat)
    requires
        b > 0,
        c > 0,
    ensures
        nearest(a * c, b * c) == nearest(a, b),
{
    let quotient = a / b;
    let rest = a % b;
    vstd::arithmetic::div_mod::lemma_fundamental_div_mod(a as int, b as int);
    assert(a * c == quotient * (b * c) + rest * c) by (nonlinear_arith)
        requires
            a == b * quotient + rest,
    ;
    assert(0 <= rest * c < b * c) by (nonlinear_arith)
        requires
            0 <= rest < b,
            c > 0,
    ;
    vstd::arithmetic::div_mod::lemma_fundamental_div_mod_converse(
        (a * c) as int,
        (b * c) as int,
        quotient as int,
        (rest * c) as int,
    );
    assert(2 * (rest * c) < b * c <==> 2 * rest < b) by (nonlinear_arith)
        requires
            c > 0,
    ;
    assert(2 * (rest * c) > b * c <==> 2 * rest > b) by (nonlinear_arith)
        requires
            c > 0,
    ;
}

proof fn lemma_nearest_whole(a: nat)
    ensures
        nearest(a, 1) == a,
{
}

proof fn lemma_small(a: nat, b: nat)
    requires
        2 * a < b,
    ensures
        nearest(a, b) == 0,
{
    vstd::arithmetic::div_mod::lemma_basic_div(a as int, b as int);
    vstd::arithmetic::div_mod::lemma_small_mod(a, b);
}

proof fn lemma_almost(whole: nat, used: nat)
    requires
        0 < used,
        used * pow2(48) <= whole,
    ensures
        nearest((100 * whole - used) as nat * pow2(46), whole) == 100 * pow2(46),
        100 * whole - used >= 64 * whole,
{
    lemma2_to64();
    lemma_limits();
    lemma_pow2_unfold(48);
    let part = pow2(46);
    let quotient = (100 * part - 1) as nat;
    let rest = whole - used * part;
    assert(used * pow2(48) == used * part * 4) by (nonlinear_arith)
        requires
            pow2(48) == part * 4,
    ;
    assert(used * part >= part) by (nonlinear_arith)
        requires
            used >= 1,
    ;
    assert((100 * whole - used) * part == quotient * whole + rest) by (nonlinear_arith)
        requires
            quotient == 100 * part - 1,
            rest == whole - used * part,
    ;
    vstd::arithmetic::div_mod::lemma_fundamental_div_mod_converse(
        ((100 * whole - used) * part) as int,
        whole as int,
        quotient as int,
        rest as int,
    );
    assert(used <= used * pow2(48)) by (nonlinear_arith)
        requires
            pow2(48) >= 1,
    ;
}

/// A whole number in decimal, the last digit first.
pub open spec fn value(digits: Seq<u8>) -> nat
    decreases digits.len(),
{
    if digits.len() == 0 {
        0
    } else {
        digits[0] as nat + 10 * value(digits.drop_first())
    }
}

/// The digits of a whole number, the last digit first, without zeros in front.
pub open spec fn is_number(digits: Seq<u8>) -> bool {
    &&& digits.len() > 0
    &&& forall|i: int| 0 <= i < digits.len() ==> #[trigger] digits[i] < 10
    &&& digits.len() > 1 ==> digits.last() > 0
}

pub(crate) proof fn lemma_value_of_pushed(digits: Seq<u8>, digit: u8)
    ensures
        value(digits.push(digit)) == value(digits) + digit as nat * vstd::arithmetic::power::pow(
            10,
            digits.len(),
        ),
    decreases digits.len(),
{
    reveal(vstd::arithmetic::power::pow);
    if digits.len() == 0 {
        let whole = digits.push(digit);
        assert(whole.drop_first() =~= Seq::<u8>::empty());
        assert(value(Seq::<u8>::empty()) == 0);
        assert(value(whole) == digit as nat);
        assert(vstd::arithmetic::power::pow(10, 0) == 1);
    } else {
        let rest = digits.drop_first();
        lemma_value_of_pushed(rest, digit);
        assert(digits.push(digit).drop_first() =~= rest.push(digit));
        let tail = vstd::arithmetic::power::pow(10, rest.len());
        assert(vstd::arithmetic::power::pow(10, digits.len()) == 10 * tail);
        assert(10 * (digit as int * tail) == digit as int * (10 * tail)) by (nonlinear_arith);
    }
}

proof fn lemma_digits_of_number(digits: Seq<u8>)
    requires
        is_number(digits),
    ensures
        crate::text::decimal_text(value(digits)) == digits.reverse().map_values(
            |digit: u8| crate::text::digit_char(digit as nat),
        ),
        digits.len() > 1 ==> value(digits) >= 10,
    decreases digits.len(),
{
    let letters = digits.reverse().map_values(
        |digit: u8| crate::text::digit_char(digit as nat),
    );
    let rest = digits.drop_first();
    if digits.len() == 1 {
        assert(rest =~= Seq::<u8>::empty());
        assert(value(rest) == 0);
        assert(value(digits) == digits[0] as nat);
        assert(letters =~= seq![crate::text::digit_char(digits[0] as nat)]);
    } else {
        assert forall|i: int| 0 <= i < rest.len() implies #[trigger] rest[i] < 10 by {
            assert(rest[i] == digits[i + 1]);
        }
        assert(rest.last() == digits.last());
        if rest.len() == 1 {
            assert(rest.drop_first() =~= Seq::<u8>::empty());
            assert(value(Seq::<u8>::empty()) == 0);
            assert(value(rest) == rest[0] as nat);
        }
        lemma_digits_of_number(rest);
        let number = value(digits);
        assert(number / 10 == value(rest));
        assert(number % 10 == digits[0] as nat);
        let before = rest.reverse().map_values(
            |digit: u8| crate::text::digit_char(digit as nat),
        );
        assert(letters =~= before.push(crate::text::digit_char(digits[0] as nat)));
    }
}

proof fn lemma_doubling(out: nat, place: int, digit: int, carry: int, rest: nat, low: int, high: int)
    requires
        2 * digit + carry == 10 * high + low,
    ensures
        out + place * carry + place * (2 * (digit + 10 * rest)) == (out + low * place) + (10 * place)
            * high + (10 * place) * (2 * rest),
{
    assert(out + place * carry + place * (2 * (digit + 10 * rest)) == out + place * (2 * digit
        + carry) + place * (20 * rest)) by (nonlinear_arith);
    assert(place * (10 * high + low) == low * place + (10 * place) * high) by (nonlinear_arith);
    assert(place * (20 * rest) == (10 * place) * (2 * rest)) by (nonlinear_arith);
}

fn double(digits: &Vec<u8>) -> (doubled: Vec<u8>)
    requires
        is_number(digits@),
        value(digits@) > 0,
    ensures
        is_number(doubled@),
        value(doubled@) == 2 * value(digits@),
        value(doubled@) > 0,
{
    let mut out: Vec<u8> = Vec::new();
    let mut carry: u8 = 0;
    let mut i: usize = 0;
    proof {
        reveal(vstd::arithmetic::power::pow);
        assert(digits@.skip(0) =~= digits@);
        assert(value(Seq::<u8>::empty()) == 0);
        assert(vstd::arithmetic::power::pow(10, 0) == 1);
    }
    while i < digits.len()
        invariant
            is_number(digits@),
            i <= digits@.len(),
            out@.len() == i,
            carry <= 1,
            forall|k: int| 0 <= k < out@.len() ==> #[trigger] out@[k] < 10,
            i > 0 && i == digits@.len() && carry == 0 && digits@.last() > 0 ==> out@.last() > 0,
            value(out@) + vstd::arithmetic::power::pow(10, i as nat) * carry
                + vstd::arithmetic::power::pow(10, i as nat) * (2 * value(digits@.skip(i as int)))
                == 2 * value(digits@),
        decreases digits@.len() - i,
    {
        let twice: u8 = digits[i] * 2 + carry;
        let low: u8 = twice % 10;
        let high: u8 = twice / 10;
        proof {
            let rest = digits@.skip(i as int);
            assert(rest.drop_first() =~= digits@.skip(i + 1));
            assert(rest[0] == digits@[i as int]);
            lemma_value_of_pushed(out@, low);
            reveal(vstd::arithmetic::power::pow);
            lemma_doubling(
                value(out@),
                vstd::arithmetic::power::pow(10, i as nat),
                digits@[i as int] as int,
                carry as int,
                value(digits@.skip(i + 1)),
                low as int,
                high as int,
            );
        }
        out.push(low);
        carry = high;
        i = i + 1;
    }
    proof {
        assert(digits@.skip(i as int) =~= Seq::<u8>::empty());
        assert(value(Seq::<u8>::empty()) == 0);
        assert(vstd::arithmetic::power::pow(10, i as nat) * (2 * value(digits@.skip(i as int)))
            == 0) by (nonlinear_arith)
            requires
                value(digits@.skip(i as int)) == 0,
        ;
        if digits@.len() == 1 {
            assert(digits@.drop_first() =~= Seq::<u8>::empty());
            assert(digits@.last() > 0);
        }
    }
    if carry > 0 {
        proof {
            lemma_value_of_pushed(out@, carry);
            assert(vstd::arithmetic::power::pow(10, i as nat) * carry == carry as int
                * vstd::arithmetic::power::pow(10, i as nat)) by (nonlinear_arith);
        }
        out.push(carry);
    }
    out
}

fn digits_of(number: u64) -> (digits: Vec<u8>)
    requires
        number > 0,
    ensures
        is_number(digits@),
        value(digits@) == number,
{
    let mut digits: Vec<u8> = Vec::new();
    let mut rest: u64 = number;
    proof {
        reveal(vstd::arithmetic::power::pow);
        assert(value(Seq::<u8>::empty()) == 0);
        assert(vstd::arithmetic::power::pow(10, 0) == 1);
    }
    while rest > 0
        invariant
            number > 0,
            rest == 0 ==> digits@.len() > 0 && digits@.last() > 0,
            forall|k: int| 0 <= k < digits@.len() ==> #[trigger] digits@[k] < 10,
            value(digits@) + vstd::arithmetic::power::pow(10, digits@.len()) * rest == number,
        decreases rest,
    {
        let low: u8 = (rest % 10) as u8;
        let high: u64 = rest / 10;
        proof {
            lemma_value_of_pushed(digits@, low);
            reveal(vstd::arithmetic::power::pow);
            let place = vstd::arithmetic::power::pow(10, digits@.len());
            assert(place * rest == low as int * place + (10 * place) * high) by (nonlinear_arith)
                requires
                    rest == 10 * high + low,
            ;
        }
        digits.push(low);
        rest = high;
    }
    proof {
        let place = vstd::arithmetic::power::pow(10, digits@.len());
        assert(place * 0 == 0) by (nonlinear_arith);
    }
    digits
}

fn text_of_digits(digits: &Vec<u8>) -> (text: String)
    requires
        is_number(digits@),
    ensures
        text@ == crate::text::decimal_text(value(digits@)),
{
    let ghost letters = digits@.reverse().map_values(
        |digit: u8| crate::text::digit_char(digit as nat),
    );
    let mut text = String::new();
    let mut i: usize = digits.len();
    while i > 0
        invariant
            is_number(digits@),
            i <= digits@.len(),
            letters == digits@.reverse().map_values(
                |digit: u8| crate::text::digit_char(digit as nat),
            ),
            text@ == letters.take(digits@.len() - i),
        decreases i,
    {
        i = i - 1;
        let one = decimal(digits[i] as u64);
        text = concat(text.as_str(), one.as_str());
        proof {
            let done = digits@.len() - i;
            assert(one@ == seq![crate::text::digit_char(digits@[i as int] as nat)]);
            assert(letters[done - 1] == crate::text::digit_char(digits@[i as int] as nat));
            assert(text@ =~= letters.take(done));
        }
    }
    proof {
        assert(letters.take(digits@.len() as int) =~= letters);
        lemma_digits_of_number(digits@);
    }
    text
}

fn large_text(number: u64, doublings: u64) -> (text: String)
    requires
        number > 0,
    ensures
        text@ == crate::text::decimal_text(number as nat * pow2(doublings as nat)),
{
    let mut digits = digits_of(number);
    let mut i: u64 = 0;
    proof {
        lemma2_to64();
    }
    while i < doublings
        invariant
            number > 0,
            i <= doublings,
            is_number(digits@),
            value(digits@) > 0,
            value(digits@) == number as nat * pow2(i as nat),
        decreases doublings - i,
    {
        digits = double(&digits);
        i = i + 1;
        proof {
            lemma_pow2_unfold(i as nat);
            assert(2 * (number as nat * pow2((i - 1) as nat)) == number as nat * (2 * pow2(
                (i - 1) as nat,
            ))) by (nonlinear_arith);
        }
    }
    text_of_digits(&digits)
}

fn rounded_text(level: Level) -> (text: String)
    requires
        level.finite(),
    ensures
        text@ == crate::text::decimal_text(rounded(level)),
{
    let (power_of_two, number) = parts(level);
    if power_of_two >= 1075 {
        return large_text(number, power_of_two - 1075);
    }
    let down: u64 = if power_of_two == 0 {
        1074
    } else {
        1075 - power_of_two
    };
    assert(down == -scale(level));
    proof {
        lemma_limits();
    }
    if down >= 54 {
        proof {
            lemma_grows(54, down as nat);
            lemma_small(number as nat, pow2(down as nat));
        }
        return decimal(0);
    }
    proof {
        lemma_pow2_pos(down as nat);
        assert(number as int / pow2(down as nat) as int <= number) by (nonlinear_arith)
            requires
                pow2(down as nat) >= 1,
        ;
    }
    let whole: u128 = power(down);
    let result: u128 = nearest_to(number as u128, whole);
    decimal(result as u64)
}

/// A number without digits after the point.
pub fn whole(level: Level) -> (text: String)
    ensures
        text@ == whole_text(level),
{
    let magnitude: u64 = if level.bits >= SIGN {
        level.bits - SIGN
    } else {
        level.bits
    };
    if magnitude > INFINITE {
        return owned("NaN");
    }
    let digits = if magnitude == INFINITE {
        owned("inf")
    } else {
        rounded_text(level)
    };
    let sign = if level.bits >= SIGN {
        "-"
    } else {
        ""
    };
    concat(sign, digits.as_str())
}

/// What is left of 100 where this much is used, as a multiple of `2^-47`.
pub fn share_left(used: Level) -> (units: u64)
    ensures
        units == left_units(used),
        units <= 100 * pow2(47),
{
    proof {
        lemma_limits();
    }
    if used.bits >= SIGN || used.bits == 0 {
        return 14_073_748_835_532_800;
    }
    if used.bits >= HUNDRED {
        return 0;
    }
    let (power_of_two, number) = parts(used);
    let down: u64 = if power_of_two == 0 {
        1074
    } else {
        1075 - power_of_two
    };
    assert(down == -scale(used));
    assert(down >= 46);
    let ghost den = pow2(down as nat);
    proof {
        lemma_pow2_pos(down as nat);
        lemma_pow2_adds(53, 48);
    }
    if down >= 101 {
        proof {
            lemma_grows(101, down as nat);
            assert(number as nat * pow2(48) <= pow2(53) * pow2(48)) by (nonlinear_arith)
                requires
                    number < pow2(53),
            ;
            lemma_almost(den, number as nat);
        }
        return 14_073_748_835_532_800;
    }
    let whole: u128 = power(down);
    proof {
        lemma_pow2_adds(46, (down - 46) as nat);
        lemma_grows(down as nat, 100);
        lemma_grows(46, down as nat);
        lemma_hundred();
        if down >= 47 {
            lemma_grows(47, down as nat);
        }
    }
    assert(number <= 100 * whole);
    let rest: u128 = 100 * whole - number as u128;
    let units: u128 = if rest >= 64 * whole {
        let shift: u128 = power(down - 46);
        proof {
            lemma_pow2_pos((down - 46) as nat);
            lemma_nearest_scales(rest as nat, shift as nat, pow2(46));
            lemma_quotient(rest as nat, shift as nat, (100 * pow2(46)) as nat);
        }
        nearest_to(rest, shift) * 2
    } else if down >= 47 {
        let shift: u128 = power(down - 47);
        proof {
            lemma_pow2_adds(47, (down - 47) as nat);
            lemma_pow2_pos((down - 47) as nat);
            lemma_nearest_scales(rest as nat, shift as nat, pow2(47));
            lemma_quotient(rest as nat, shift as nat, (100 * pow2(47)) as nat);
        }
        nearest_to(rest, shift)
    } else {
        proof {
            lemma_pow2_unfold(47);
            lemma_nearest_whole((rest * 2) as nat);
            lemma_nearest_scales((rest * 2) as nat, 1, pow2(46));
            assert((rest * 2) * pow2(46) == rest * pow2(47)) by (nonlinear_arith)
                requires
                    pow2(47) == 2 * pow2(46),
            ;
        }
        rest * 2
    };
    units as u64
}

/// What is left of 100 where this much is used, without digits after the point.
pub fn left_whole(used: Level) -> (text: String)
    ensures
        text@ == left_text(used),
{
    let units: u64 = share_left(used);
    proof {
        lemma_limits();
    }
    let number: u128 = nearest_to(units as u128, 0x8000_0000_0000);
    decimal(number as u64)
}

proof fn lemma_hundred()
    ensures
        pow2(100) < 0x100_0000_0000_0000_0000_0000_0000,
        pow2(100) >= 1,
{
    lemma2_to64();
    lemma2_to64_rest();
    lemma_pow2_adds(64, 36);
}

proof fn lemma_quotient(a: nat, b: nat, limit: nat)
    requires
        b > 0,
        a <= limit * b,
    ensures
        a / b <= limit,
        nearest(a, b) <= limit,
{
    vstd::arithmetic::div_mod::lemma_fundamental_div_mod(a as int, b as int);
    let quotient = a / b;
    let rest = a % b;
    assert(quotient <= limit) by (nonlinear_arith)
        requires
            a == b * quotient + rest,
            0 <= rest < b,
            a <= limit * b,
            b > 0,
    ;
    if quotient == limit {
        assert(rest == 0) by (nonlinear_arith)
            requires
                a == b * quotient + rest,
                0 <= rest,
                a <= limit * b,
                quotient == limit,
        ;
    }
}

/// The ten-thousandths of a number without its sign, to the nearest one.
pub open spec fn ten_thousandths(level: Level) -> nat {
    if scale(level) >= 0 {
        mantissa(level) * pow2(scale(level) as nat) * 10_000
    } else {
        nearest(mantissa(level) * 10_000, pow2((-scale(level)) as nat))
    }
}

/// A number of ten-thousandths, with four digits after the point.
pub open spec fn four_digits(count: nat) -> Seq<char> {
    crate::text::decimal_text(count / 10_000) + "."@ + crate::text::decimal_text(
        10_000 + count % 10_000,
    ).skip(1)
}

/// A number with four digits after the point.
pub open spec fn fixed_text(level: Level) -> Seq<char> {
    if level.magnitude() > INFINITE {
        "NaN"@
    } else {
        (if level.bits >= SIGN {
            "-"@
        } else {
            ""@
        }) + if level.magnitude() == INFINITE {
            "inf"@
        } else {
            four_digits(ten_thousandths(level))
        }
    }
}

proof fn lemma_no_digits(whole: nat)
    ensures
        four_digits(whole * 10_000) == crate::text::decimal_text(whole) + ".0000"@,
{
    reveal_with_fuel(crate::text::decimal_text, 5);
    reveal_strlit(".");
    reveal_strlit(".0000");
    let digits = crate::text::decimal_text(10_000);
    assert(digits =~= seq!['1', '0', '0', '0', '0']);
    assert("."@ + digits.skip(1) =~= ".0000"@);
    assert(four_digits(whole * 10_000) =~= crate::text::decimal_text(whole) + ".0000"@);
}

fn four_digits_of(count: u128) -> (text: String)
    requires
        count < 0x8_0000_0000_0000_0000,
    ensures
        text@ == four_digits(count as nat),
{
    let front = decimal((count / 10_000) as u64);
    let back = decimal(10_000 + (count % 10_000) as u64);
    let chars = crate::text::chars_of(back.as_str());
    assert(chars@.len() > 0) by {
        reveal_with_fuel(crate::text::decimal_text, 2);
    }
    let digits = crate::text::piece(&chars, 1, chars.len());
    assert(chars@.subrange(1, chars@.len() as int) =~= chars@.skip(1));
    concat3(front.as_str(), ".", digits.as_str())
}

fn fixed_digits(level: Level) -> (text: String)
    requires
        level.magnitude() < INFINITE,
    ensures
        text@ == four_digits(ten_thousandths(level)),
{
    let (power_of_two, number) = parts(level);
    if power_of_two >= 1075 {
        proof {
            lemma_no_digits(rounded(level));
        }
        return concat(rounded_text(level).as_str(), ".0000");
    }
    let down: u64 = if power_of_two == 0 {
        1074
    } else {
        1075 - power_of_two
    };
    assert(down == -scale(level));
    let count: u128 = number as u128 * 10_000;
    proof {
        lemma_limits();
        lemma_pow2_pos(down as nat);
    }
    if down >= 119 {
        proof {
            lemma2_to64_rest();
            lemma_pow2_adds(64, 55);
            lemma_grows(119, down as nat);
            lemma_grows(69, 119);
            lemma_pow2_adds(64, 5);
            lemma2_to64();
            lemma_small(count as nat, pow2(down as nat));
        }
        return four_digits_of(0);
    }
    let whole: u128 = power(down);
    proof {
        lemma_pow2_unfold(down as nat);
        assert(count <= (count / 2 + 1) * whole) by (nonlinear_arith)
            requires
                whole >= 2,
                count <= (count / 2 + 1) * 2,
        ;
        lemma_quotient(count as nat, whole as nat, (count / 2 + 1) as nat);
    }
    four_digits_of(nearest_to(count, whole))
}

/// A number with four digits after the point.
pub fn fixed(level: Level) -> (text: String)
    ensures
        text@ == fixed_text(level),
{
    let magnitude: u64 = if level.bits >= SIGN {
        level.bits - SIGN
    } else {
        level.bits
    };
    if magnitude > INFINITE {
        return owned("NaN");
    }
    let digits = if magnitude == INFINITE {
        owned("inf")
    } else {
        fixed_digits(level)
    };
    let sign = if level.bits >= SIGN {
        "-"
    } else {
        ""
    };
    concat(sign, digits.as_str())
}

/// Rounding a quotient gives a whole number at most a half away, and the even one of two.
pub proof fn rounding_is_to_the_nearest(a: nat, b: nat)
    requires
        b > 0,
    ensures
        2 * a <= 2 * (nearest(a, b) * b) + b,
        2 * (nearest(a, b) * b) <= 2 * a + b,
        2 * a == 2 * (nearest(a, b) * b) + b || 2 * (nearest(a, b) * b) == 2 * a + b ==> nearest(
            a,
            b,
        ) % 2 == 0,
{
    vstd::arithmetic::div_mod::lemma_fundamental_div_mod(a as int, b as int);
    let quotient = a / b;
    let rest = a % b;
    assert(quotient * b == b * quotient) by (nonlinear_arith);
    assert((quotient + 1) * b == quotient * b + b) by (nonlinear_arith);
}

/// All is left of what is not used, and nothing of what is used up.
pub proof fn all_is_left_or_nothing(used: Level)
    ensures
        used.rank() <= 0 ==> left_text(used) == crate::text::decimal_text(100),
        used.rank() >= 0x4059_0000_0000_0000 ==> left_text(used) == crate::text::decimal_text(0),
{
    let whole = pow2(47);
    lemma_pow2_pos(47);
    assert((100 * whole) % whole == 0 && (100 * whole) / whole == 100) by {
        vstd::arithmetic::div_mod::lemma_fundamental_div_mod_converse(
            (100 * whole) as int,
            whole as int,
            100,
            0,
        );
    }
    assert(0nat % whole == 0 && 0nat / whole == 0) by {
        vstd::arithmetic::div_mod::lemma_fundamental_div_mod_converse(0, whole as int, 0, 0);
    }
}

/// The bits of a number tell its units: below the first power of two they are the units; above,
/// each further power doubles them.
pub proof fn bits_tell_the_units(level: Level)
    requires
        level.bits <= INFINITE,
    ensures
        ({
            let power = level.bits as int / 0x10_0000_0000_0000;
            let rest = level.bits as int % 0x10_0000_0000_0000;
            &&& power == 0 ==> crate::double::level_units(level) == rest
            &&& power > 0 ==> crate::double::level_units(level) == (rest + 0x10_0000_0000_0000)
                * pow2((power - 1) as nat)
        }),
{
    lemma2_to64();
    let rest = mantissa(level);
    assert(rest * pow2(0) == rest);
}

/// A number is shown by the whole number nearest to it, and by the nearest number of ten thousandths.
pub proof fn numbers_are_shown_rounded(level: Level)
    requires
        level.finite(),
    ensures
        ({
            let units = crate::double::level_units(level);
            let one = crate::double::one();
            &&& 2 * (rounded(level) * one) <= 2 * units + one
            &&& 2 * units <= 2 * (rounded(level) * one) + one
            &&& 2 * (ten_thousandths(level) * one) <= 2 * (10_000 * units) + one
            &&& 2 * (10_000 * units) <= 2 * (ten_thousandths(level) * one) + one
        }),
{
    let m = mantissa(level);
    let units = crate::double::level_units(level);
    let one = crate::double::one();
    lemma_pow2_pos(1074);
    if scale(level) >= 0 {
        let p = pow2(scale(level) as nat);
        lemma_pow2_adds(scale(level) as nat, 1074);
        assert((m * p) * one == m * (p * one)) by (nonlinear_arith);
        assert((m * p * 10_000) * one == 10_000 * (m * (p * one))) by (nonlinear_arith);
    } else {
        let b = pow2((-scale(level)) as nat);
        let c = pow2((scale(level) + 1074) as nat);
        lemma_pow2_pos((-scale(level)) as nat);
        lemma_pow2_pos((scale(level) + 1074) as nat);
        lemma_pow2_adds((-scale(level)) as nat, (scale(level) + 1074) as nat);
        assert(one == b * c);
        rounding_is_to_the_nearest(m, b);
        rounding_is_to_the_nearest(m * 10_000, b);
        let r = nearest(m, b);
        let t = nearest(m * 10_000, b);
        assert(2 * (r * one) <= 2 * units + one && 2 * units <= 2 * (r * one) + one)
            by (nonlinear_arith)
            requires
                one == b * c,
                units == m * c,
                c > 0,
                2 * m <= 2 * (r * b) + b,
                2 * (r * b) <= 2 * m + b,
        ;
        assert(2 * (t * one) <= 2 * (10_000 * units) + one && 2 * (10_000 * units) <= 2 * (t * one)
            + one) by (nonlinear_arith)
            requires
                one == b * c,
                units == m * c,
                c > 0,
                2 * (m * 10_000) <= 2 * (t * b) + b,
                2 * (t * b) <= 2 * (m * 10_000) + b,
        ;
    }
}

/// What is shown of a number: its sign, and its whole part or four digits behind the point; what is
/// no number, or is infinite, is shown as such.
pub proof fn numbers_are_shown(level: Level)
    ensures
        level.bits < 0x7ff0_0000_0000_0000 ==> whole_text(level) == crate::text::decimal_text(
            rounded(level),
        ),
        level.bits < 0x7ff0_0000_0000_0000 ==> fixed_text(level) == crate::text::decimal_text(
            ten_thousandths(level) / 10_000,
        ) + "."@ + crate::text::decimal_text(10_000 + ten_thousandths(level) % 10_000).skip(1),
        level.bits == 0x7ff0_0000_0000_0000 ==> whole_text(level) == "inf"@ && fixed_text(level)
            == "inf"@,
        level.bits == 0xfff0_0000_0000_0000 ==> whole_text(level) == "-"@ + "inf"@ && fixed_text(
            level,
        ) == "-"@ + "inf"@,
        0x7ff0_0000_0000_0000 < level.bits < 0x8000_0000_0000_0000 ==> whole_text(level) == "NaN"@
            && fixed_text(level) == "NaN"@,
        0x8000_0000_0000_0000 <= level.bits < 0xfff0_0000_0000_0000 ==> whole_text(level) == "-"@
            + crate::text::decimal_text(rounded(level)),
{
    reveal_strlit("");
    reveal_strlit("inf");
    assert(""@ + "inf"@ =~= "inf"@);
    let whole = crate::text::decimal_text(rounded(level));
    assert(""@ + whole =~= whole);
    let fixed = four_digits(ten_thousandths(level));
    assert(""@ + fixed =~= fixed);
}

/// Of a whole percentage that is used, the rest to a hundred is left.
pub proof fn rest_to_a_hundred_is_left(used: Level, number: nat)
    requires
        0 < number < 100,
        0 < used.rank() < HUNDRED,
        crate::double::level_units(used) == number * crate::double::one(),
    ensures
        left_units(used) == (100 - number) * pow2(47),
        left_text(used) == crate::text::decimal_text((100 - number) as nat),
{
    let m = mantissa(used);
    let s = scale(used);
    let k = (-s) as nat;
    let whole = pow2(k);
    let c = pow2((s + 1074) as nat);
    lemma_pow2_pos(k);
    lemma_pow2_pos((s + 1074) as nat);
    lemma_pow2_adds(k, (s + 1074) as nat);
    assert(crate::double::one() == whole * c);
    assert(m == number * whole) by (nonlinear_arith)
        requires
            m * c == number * (whole * c),
            c > 0,
    ;
    let rest = (100 - number) as nat;
    assert(m <= 100 * whole) by (nonlinear_arith)
        requires
            m == number * whole,
            number < 100,
    ;
    let left = (100 * whole - m) as nat;
    assert(left == rest * whole) by (nonlinear_arith)
        requires
            left == 100 * whole - m,
            m == number * whole,
            rest == 100 - number,
    ;
    lemma_pow2_pos(46);
    lemma_pow2_pos(47);
    lemma_pow2_unfold(47);
    let small = pow2(46);
    let large = pow2(47);
    assert(left * small == (rest * small) * whole + 0) by (nonlinear_arith)
        requires
            left == rest * whole,
    ;
    assert(left * large == (rest * large) * whole + 0) by (nonlinear_arith)
        requires
            left == rest * whole,
    ;
    vstd::arithmetic::div_mod::lemma_fundamental_div_mod_converse(
        (left * small) as int,
        whole as int,
        (rest * small) as int,
        0,
    );
    vstd::arithmetic::div_mod::lemma_fundamental_div_mod_converse(
        (left * large) as int,
        whole as int,
        (rest * large) as int,
        0,
    );
    assert((rest * small) * 2 == rest * large) by (nonlinear_arith)
        requires
            large == 2 * small,
    ;
    vstd::arithmetic::div_mod::lemma_fundamental_div_mod_converse(
        (rest * large) as int,
        large as int,
        rest as int,
        0,
    );
}

} // verus!
