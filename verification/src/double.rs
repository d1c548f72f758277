//! Arithmetic of doubles that are not negative, rounded as IEEE 754 rounds it.
//!
//! Every double is a whole multiple of `2^-1074`, its unit here. From `2^53` units on, doubles are
//! spaced more widely: by twice as much with every doubling. The result of an operation is the double
//! nearest to the exact result, and of two that are as near, the one with the even mantissa.
use crate::level::Level;
use crate::level::INFINITE;
use crate::percent::BINADE;
use vstd::arithmetic::power::pow;
use vstd::arithmetic::power2::*;
use vstd::prelude::*;

verus! {

/// How many units the number one has.
pub open spec fn one() -> nat {
    pow2(1074)
}

/// The distance between doubles at a number of units.
pub open spec fn spacing(units: nat) -> nat
    decreases units,
{
    if units < 0x20_0000_0000_0000 {
        1
    } else {
        2 * spacing(units / 2)
    }
}

/// The double nearest to a quotient, in units.
pub open spec fn nearest_double(a: nat, b: nat) -> nat {
    let unit = spacing(a * one() / b);
    crate::percent::nearest(a * one(), b * unit) * unit
}

/// The double nearest to the sum of two doubles.
pub open spec fn sum(a: nat, b: nat) -> nat {
    nearest_double(a + b, one())
}

/// The double nearest to the product of two doubles.
pub open spec fn product(a: nat, b: nat) -> nat {
    nearest_double(a * b, one() * one())
}

/// A double: a mantissa times two to a power, in units.
#[derive(Clone, Copy)]
pub struct Double {
    pub mantissa: u64,
    pub power: u64,
}

impl Double {
    /// The number of units.
    pub open spec fn units(self) -> nat {
        self.mantissa as nat * pow2(self.power as nat)
    }

    /// The mantissa has 53 bits, or the number is among the smallest.
    pub open spec fn wf(self) -> bool {
        &&& self.mantissa <= 0x20_0000_0000_0000
        &&& self.mantissa >= 0x10_0000_0000_0000 || self.power == 0
        &&& self.power <= 10_000
    }
}

proof fn lemma_spacing(units: nat, u: nat)
    requires
        units < 0x20_0000_0000_0000 * pow2(u),
        u > 0 ==> units >= 0x10_0000_0000_0000 * pow2(u),
    ensures
        spacing(units) == pow2(u),
    decreases u,
{
    lemma2_to64();
    if u > 0 {
        lemma_pow2_unfold(u);
        lemma_pow2_pos((u - 1) as nat);
        lemma_spacing(units / 2, (u - 1) as nat);
    }
}

proof fn lemma_cancel(a: nat, b: nat, c: nat)
    requires
        c > 0,
    ensures
        a * c < b * c <==> a < b,
        a * c <= b * c <==> a <= b,
{
    assert(a * c < b * c <==> a < b) by (nonlinear_arith)
        requires
            c > 0,
    ;
    assert(a * c <= b * c <==> a <= b) by (nonlinear_arith)
        requires
            c > 0,
    ;
}

/// What is divided where parts of `2^t` units are counted.
pub(crate) open spec fn dividend(a: nat, t: int) -> nat {
    if t < 0 {
        a * one() * pow2((-t) as nat)
    } else {
        a * one()
    }
}

/// What it is divided by.
pub(crate) open spec fn divisor(b: nat, t: int) -> nat {
    if t < 0 {
        b
    } else {
        b * pow2(t as nat)
    }
}

/// The parts of `2^t` units that a quotient has, and whether anything is left.
pub(crate) open spec fn has_parts(a: nat, b: nat, t: int, parts: nat, left: bool) -> bool {
    &&& b > 0
    &&& parts == dividend(a, t) / divisor(b, t)
    &&& left == (dividend(a, t) % divisor(b, t) != 0)
}

pub(crate) proof fn lemma_parts(a: nat, b: nat, t: int, parts: nat, rest: nat)
    requires
        b > 0,
        dividend(a, t) == parts * divisor(b, t) + rest,
        rest < divisor(b, t),
    ensures
        has_parts(a, b, t, parts, rest != 0),
{
    vstd::arithmetic::div_mod::lemma_fundamental_div_mod_converse(
        dividend(a, t) as int,
        divisor(b, t) as int,
        parts as int,
        rest as int,
    );
}

/// Parts of `2^-scale` are parts of `2^(1074 - scale)` units.
proof fn lemma_scaled_parts(a: nat, b: nat, scale: nat, parts: nat, rest: nat)
    requires
        a * pow2(scale) == parts * b + rest,
        rest < b,
    ensures
        has_parts(a, b, 1074 - scale, parts, rest != 0),
{
    let t = 1074 - scale;
    if t < 0 {
        lemma_pow2_adds(1074, (-t) as nat);
        assert(dividend(a, t) == a * pow2(scale)) by (nonlinear_arith)
            requires
                dividend(a, t) == a * one() * pow2((-t) as nat),
                pow2(scale) == one() * pow2((-t) as nat),
        ;
        lemma_parts(a, b, t, parts, rest);
    } else {
        let p = pow2(t as nat);
        lemma_pow2_pos(t as nat);
        lemma_pow2_adds(scale, t as nat);
        assert(a * one() == parts * (b * p) + rest * p) by (nonlinear_arith)
            requires
                one() == pow2(scale) * p,
                a * pow2(scale) == parts * b + rest,
        ;
        assert(rest * p < b * p) by (nonlinear_arith)
            requires
                rest < b,
                p > 0,
        ;
        assert(rest * p != 0 <==> rest != 0) by (nonlinear_arith)
            requires
                p > 0,
        ;
        lemma_parts(a, b, t, parts, rest * p);
    }
}

/// Where the parts of `2^t` units are known, the spacing is known too.
proof fn lemma_nearest_double(a: nat, b: nat, t: int, k: nat)
    requires
        b > 0,
        t + k >= 0,
        dividend(a, t) / divisor(b, t) < 0x20_0000_0000_0000 * pow2(k),
        t + k > 0 ==> dividend(a, t) / divisor(b, t) >= 0x10_0000_0000_0000 * pow2(k),
    ensures
        nearest_double(a, b) == crate::percent::nearest(dividend(a, t), divisor(b, t) * pow2(k))
            * pow2((t + k) as nat),
        divisor(b, t) > 0,
{
    let u = (t + k) as nat;
    let units = a * one() / b;
    let x = dividend(a, t);
    let y = divisor(b, t);
    let parts = x / y;
    let top: nat = 0x20_0000_0000_0000;
    let low: nat = 0x10_0000_0000_0000;
    // What parts are counted in more finely than units, where they are.
    let fine = if t < 0 {
        pow2((-t) as nat)
    } else {
        1
    };
    lemma_pow2_pos(k);
    lemma_pow2_pos(u);
    if t < 0 {
        lemma_pow2_pos((-t) as nat);
        lemma_pow2_adds(u, (-t) as nat);
    } else {
        lemma_pow2_pos(t as nat);
        lemma_pow2_adds(t as nat, k);
    }
    assert(y > 0) by (nonlinear_arith)
        requires
            b > 0,
            y == b || y == b * pow2(t as nat),
            pow2(t as nat) > 0 || y == b,
    ;
    assert(x == (a * one()) * fine) by (nonlinear_arith)
        requires
            x == a * one() * fine || (fine == 1 && x == a * one()),
    ;
    assert(y * pow2(k) == (b * pow2(u)) * fine) by {
        if t < 0 {
            assert(b * pow2(k) == (b * pow2(u)) * fine) by (nonlinear_arith)
                requires
                    pow2(k) == pow2(u) * fine,
            ;
        } else {
            assert((b * pow2(t as nat)) * pow2(k) == b * pow2(u)) by (nonlinear_arith)
                requires
                    pow2(u) == pow2(t as nat) * pow2(k),
            ;
        }
    }
    vstd::arithmetic::div_mod::lemma_fundamental_div_mod(x as int, y as int);
    vstd::arithmetic::div_mod::lemma_fundamental_div_mod((a * one()) as int, b as int);
    // Both bounds carry over from parts to units.
    assert(a * one() < (top * pow2(u)) * b) by {
        let bound = top * pow2(k);
        assert(y * parts + y <= bound * y) by (nonlinear_arith)
            requires
                parts + 1 <= bound,
        ;
        assert((top * pow2(k)) * y == ((top * pow2(u)) * b) * fine) by (nonlinear_arith)
            requires
                y * pow2(k) == (b * pow2(u)) * fine,
        ;
        lemma_cancel(a * one(), (top * pow2(u)) * b, fine);
    }
    assert(units < top * pow2(u)) by {
        if units >= top * pow2(u) {
            assert(b * units >= (top * pow2(u)) * b) by (nonlinear_arith)
                requires
                    units >= top * pow2(u),
            ;
        }
    }
    if u > 0 {
        assert(a * one() >= (low * pow2(u)) * b) by {
            assert(x >= (low * pow2(k)) * y) by (nonlinear_arith)
                requires
                    x >= y * parts,
                    parts >= low * pow2(k),
            ;
            assert((low * pow2(k)) * y == ((low * pow2(u)) * b) * fine) by (nonlinear_arith)
                requires
                    y * pow2(k) == (b * pow2(u)) * fine,
            ;
            lemma_cancel((low * pow2(u)) * b, a * one(), fine);
        }
        assert(units >= low * pow2(u)) by {
            if units < low * pow2(u) {
                assert(b * units + b <= (low * pow2(u)) * b) by (nonlinear_arith)
                    requires
                        units + 1 <= low * pow2(u),
                ;
            }
        }
    }
    lemma_spacing(units, u);
    assert(b * pow2(u) > 0) by (nonlinear_arith)
        requires
            b > 0,
            pow2(u) > 0,
    ;
    crate::percent::lemma_nearest_scales(a * one(), b * pow2(u), fine);
}

/// Rounding to a multiple of `2^k` parts, given the whole parts and whether anything is left.
proof fn lemma_nearest_part(a: nat, b: nat, k: nat)
    requires
        b > 0,
        k == 0 ==> a % b == 0,
    ensures
        ({
            let whole = a / b;
            let quotient = whole / pow2(k);
            let rest = whole % pow2(k);
            let half = pow2((k - 1) as nat);
            crate::percent::nearest(a, b * pow2(k)) == if k == 0 || rest < half {
                quotient
            } else if rest > half || a % b != 0 {
                quotient + 1
            } else if quotient % 2 == 0 {
                quotient
            } else {
                quotient + 1
            }
        }),
{
    let whole = a / b;
    let left = a % b;
    vstd::arithmetic::div_mod::lemma_fundamental_div_mod(a as int, b as int);
    if k == 0 {
        lemma2_to64();
        assert(b * pow2(k) == b) by (nonlinear_arith)
            requires
                pow2(k) == 1,
        ;
        assert(whole / pow2(k) == whole && whole % pow2(k) == 0);
    } else {
        let p = pow2(k);
        let half = pow2((k - 1) as nat);
        lemma_pow2_unfold(k);
        lemma_pow2_pos((k - 1) as nat);
        let quotient = whole / p;
        let rest = whole % p;
        vstd::arithmetic::div_mod::lemma_fundamental_div_mod(whole as int, p as int);
        assert(a == quotient * (b * p) + (rest * b + left)) by (nonlinear_arith)
            requires
                a == b * whole + left,
                whole == p * quotient + rest,
        ;
        assert(rest * b + left < b * p) by (nonlinear_arith)
            requires
                rest + 1 <= p,
                left < b,
        ;
        vstd::arithmetic::div_mod::lemma_fundamental_div_mod_converse(
            a as int,
            (b * p) as int,
            quotient as int,
            (rest * b + left) as int,
        );
        let remainder = rest * b + left;
        assert(rest < half ==> 2 * remainder < b * p) by (nonlinear_arith)
            requires
                remainder == rest * b + left,
                left < b,
                p == 2 * half,
        ;
        assert(rest > half ==> 2 * remainder > b * p) by (nonlinear_arith)
            requires
                remainder == rest * b + left,
                b > 0,
                p == 2 * half,
        ;
        assert(rest == half ==> 2 * remainder == b * p + 2 * left) by (nonlinear_arith)
            requires
                remainder == rest * b + left,
                p == 2 * half,
        ;
    }
}

/// The double nearest to a quotient, given its parts of `2^t` units, and whether anything is left.
pub(crate) fn round(parts: u128, t: i64, left: bool, Ghost(a): Ghost<nat>, Ghost(b): Ghost<nat>) -> (found:
    Double)
    requires
        -8_000 <= t <= 8_000,
        has_parts(a, b, t as int, parts as nat, left),
        parts < pow2(119),
        left ==> parts >= 0x20_0000_0000_0000 || t < 0,
    ensures
        found.wf(),
        found.power <= 240 || found.power <= t + 240,
        found.units() == nearest_double(a, b),
{
    let ghost start = t;
    let mut parts: u128 = parts;
    let mut t: i64 = t;
    proof {
        lemma2_to64();
        crate::percent::lemma_limits();
        crate::percent::lemma_grows(53, 119);
    }
    if t <= -120 {
        proof {
            lemma_small_parts(a, b, t as int, parts as nat, (-t) as nat);
        }
        return Double::zero();
    }
    while parts < 0x10_0000_0000_0000 && t > 0
        invariant
            -120 < t <= start <= 8_000,
            has_parts(a, b, t as int, parts as nat, left),
            parts < pow2(119),
            pow2(53) == 0x20_0000_0000_0000,
            pow2(53) <= pow2(119),
            left ==> parts >= 0x20_0000_0000_0000 || t < 0,
        decreases t,
    {
        proof {
            let p = pow2((t - 1) as nat);
            lemma_pow2_unfold(t as nat);
            lemma_pow2_pos((t - 1) as nat);
            lemma_pow2_pos(t as nat);
            assert(b * pow2(t as nat) > 0 && b * p > 0) by (nonlinear_arith)
                requires
                    b > 0,
                    pow2(t as nat) > 0,
                    p > 0,
            ;
            vstd::arithmetic::div_mod::lemma_fundamental_div_mod(
                dividend(a, t as int) as int,
                divisor(b, t as int) as int,
            );
            assert(a * one() == (2 * parts) * (b * p) + 0) by (nonlinear_arith)
                requires
                    a * one() == (b * pow2(t as nat)) * parts,
                    pow2(t as nat) == 2 * p,
            ;
            lemma_parts(a, b, t - 1, (2 * parts) as nat, 0);
        }
        parts = parts * 2;
        t = t - 1;
    }
    let mut k: u64 = if t < 0 {
        (-t) as u64
    } else {
        0
    };
    let mut p: u128 = crate::percent::power(k);
    proof {
        lemma_pow2_pos(k as nat);
    }
    while parts / p >= 0x20_0000_0000_0000
        invariant
            p == pow2(k as nat),
            p > 0,
            k <= 240,
            -120 < t <= start <= 8_000,
            t + k >= 0,
            t + k > 0 ==> parts >= 0x10_0000_0000_0000 * p,
            parts < pow2(119),
            pow2(119) < 0x1_0000_0000_0000_0000_0000_0000_0000_0000,
        decreases parts - p,
    {
        proof {
            vstd::arithmetic::div_mod::lemma_fundamental_div_mod(parts as int, p as int);
            let quotient = parts / p;
            assert(parts >= 0x20_0000_0000_0000 * p) by (nonlinear_arith)
                requires
                    parts >= p * quotient,
                    quotient >= 0x20_0000_0000_0000,
                    p > 0,
            ;
            lemma_pow2_unfold((k + 1) as nat);
            if k >= 119 {
                crate::percent::lemma_grows(119, k as nat);
            }
        }
        p = p * 2;
        k = k + 1;
    }
    proof {
        vstd::arithmetic::div_mod::lemma_fundamental_div_mod(parts as int, p as int);
        let quotient = parts / p;
        let rest = parts % p;
        assert(parts < 0x20_0000_0000_0000 * p) by (nonlinear_arith)
            requires
                parts == p * quotient + rest,
                rest < p,
                quotient + 1 <= 0x20_0000_0000_0000,
        ;
        if t + k > 0 {
            assert(quotient >= 0x10_0000_0000_0000) by {
                if quotient < 0x10_0000_0000_0000 {
                    assert(parts < 0x10_0000_0000_0000 * p) by (nonlinear_arith)
                        requires
                            parts == p * quotient + rest,
                            rest < p,
                            quotient + 1 <= 0x10_0000_0000_0000,
                    ;
                }
            }
        }
        if k == 0 && left {
            assert(parts / 1 >= 0x20_0000_0000_0000);
        }
        lemma_nearest_double(a, b, t as int, k as nat);
        lemma_nearest_part(dividend(a, t as int), divisor(b, t as int), k as nat);
        if k > 0 {
            lemma_pow2_unfold(k as nat);
        }
    }
    let quotient: u64 = (parts / p) as u64;
    let rest: u128 = parts % p;
    let half: u128 = p / 2;
    let mantissa: u64 = if k == 0 || rest < half {
        quotient
    } else if rest > half || left || quotient % 2 == 1 {
        quotient + 1
    } else {
        quotient
    };
    Double { mantissa, power: (t + k as i64) as u64 }
}

proof fn lemma_small_parts(a: nat, b: nat, t: int, parts: nat, k: nat)
    requires
        has_parts(a, b, t, parts, true) || has_parts(a, b, t, parts, false),
        t <= -120,
        parts < pow2(119),
        k == -t,
    ensures
        nearest_double(a, b) == 0,
{
    let x = dividend(a, t);
    lemma_pow2_pos(k);
    lemma_pow2_unfold(120);
    crate::percent::lemma_grows(120, k);
    vstd::arithmetic::div_mod::lemma_fundamental_div_mod(x as int, b as int);
    assert(2 * x < b * pow2(k)) by (nonlinear_arith)
        requires
            x == b * parts + x % b,
            x % b < b,
            2 * (parts + 1) <= pow2(k),
            b > 0,
    ;
    assert((2 * (a * one())) * pow2(k) == 2 * x) by (nonlinear_arith)
        requires
            x == a * one() * pow2(k),
    ;
    lemma_cancel(2 * (a * one()), b, pow2(k));
    lemma_vanishes(a, b);
}

proof fn lemma_spacing_of(units: nat) -> (u: nat)
    ensures
        spacing(units) == pow2(u),
        u > 0 ==> units >= 0x10_0000_0000_0000 * pow2(u),
    decreases units,
{
    lemma2_to64();
    if units < 0x20_0000_0000_0000 {
        0
    } else {
        let half = lemma_spacing_of(units / 2);
        lemma_pow2_unfold(half + 1);
        half + 1
    }
}

/// Rounding takes no number below a power of two that it has reached.
pub proof fn rounding_keeps_powers(a: nat, b: nat, j: nat)
    requires
        b > 0,
        a >= b * pow2(j),
    ensures
        nearest_double(a, b) >= pow2(j) * one(),
{
    let units = a * one() / b;
    let u = lemma_spacing_of(units);
    let unit = pow2(u);
    lemma_pow2_pos(u);
    lemma_pow2_pos(1074);
    lemma_pow2_adds(j, 1074);
    let goal = pow2(j + 1074);
    assert(a * one() >= b * goal) by (nonlinear_arith)
        requires
            a >= b * pow2(j),
            goal == pow2(j) * one(),
    ;
    let count = a * one() / (b * unit);
    assert(b * unit > 0) by (nonlinear_arith)
        requires
            b > 0,
            unit > 0,
    ;
    let low: nat = if u <= j + 1074 {
        lemma_pow2_adds(u, (j + 1074 - u) as nat);
        pow2((j + 1074 - u) as nat)
    } else {
        1
    };
    assert(a * one() >= (b * unit) * low) by {
        if u <= j + 1074 {
            assert(b * goal == (b * unit) * low) by (nonlinear_arith)
                requires
                    goal == unit * low,
            ;
        } else {
            vstd::arithmetic::div_mod::lemma_fundamental_div_mod((a * one()) as int, b as int);
            assert(b * units >= b * unit) by (nonlinear_arith)
                requires
                    units >= 0x10_0000_0000_0000 * unit,
                    unit > 0,
            ;
        }
    }
    vstd::arithmetic::div_mod::lemma_fundamental_div_mod((a * one()) as int, (b * unit) as int);
    assert(count >= low) by {
        if count < low {
            assert((b * unit) * count + b * unit <= (b * unit) * low) by (nonlinear_arith)
                requires
                    count + 1 <= low,
            ;
        }
    }
    assert(low * unit >= goal) by {
        if u <= j + 1074 {
            assert(low * unit == unit * low) by (nonlinear_arith);
        } else {
            crate::percent::lemma_grows(j + 1074, u);
        }
    }
    let rounded = crate::percent::nearest(a * one(), b * unit);
    assert(rounded * unit >= low * unit) by (nonlinear_arith)
        requires
            rounded >= low,
    ;
}

/// Rounding takes no number above a power of two that it has not passed.
pub proof fn rounding_stays_below_powers(a: nat, b: nat, j: nat)
    requires
        b > 0,
        a <= b * pow2(j),
    ensures
        nearest_double(a, b) <= pow2(j) * one(),
{
    let units = a * one() / b;
    let u = lemma_spacing_of(units);
    let unit = pow2(u);
    lemma2_to64();
    lemma_pow2_pos(u);
    lemma_pow2_pos(1074);
    lemma_pow2_adds(j, 1074);
    let goal = pow2(j + 1074);
    assert(a * one() <= b * goal) by (nonlinear_arith)
        requires
            a <= b * pow2(j),
            goal == pow2(j) * one(),
    ;
    vstd::arithmetic::div_mod::lemma_fundamental_div_mod((a * one()) as int, b as int);
    assert(units <= goal) by {
        if units > goal {
            assert(b * units > b * goal) by (nonlinear_arith)
                requires
                    units > goal,
                    b > 0,
            ;
        }
    }
    assert(u <= j + 1074) by {
        if u > j + 1074 {
            crate::percent::lemma_grows(j + 1074, u);
        }
    }
    let top = pow2((j + 1074 - u) as nat);
    lemma_pow2_adds(u, (j + 1074 - u) as nat);
    let wide = b * unit;
    assert(wide > 0) by (nonlinear_arith)
        requires
            wide == b * unit,
            b > 0,
            unit > 0,
    ;
    assert(b * goal == wide * top) by (nonlinear_arith)
        requires
            goal == unit * top,
            wide == b * unit,
    ;
    let count = a * one() / wide;
    vstd::arithmetic::div_mod::lemma_fundamental_div_mod((a * one()) as int, wide as int);
    let rounded = crate::percent::nearest(a * one(), wide);
    assert(rounded <= top) by {
        if count >= top {
            assert(wide * count >= wide * top) by (nonlinear_arith)
                requires
                    count >= top,
            ;
            assert(count == top) by {
                if count > top {
                    assert(wide * count >= wide * top + wide) by (nonlinear_arith)
                        requires
                            count >= top + 1,
                    ;
                }
            }
        }
    }
    assert(rounded * unit <= goal) by (nonlinear_arith)
        requires
            rounded <= top,
            goal == unit * top,
    ;
}

pub(crate) proof fn lemma_vanishes(a: nat, b: nat)
    requires
        2 * (a * one()) < b,
    ensures
        nearest_double(a, b) == 0,
{
    vstd::arithmetic::div_mod::lemma_basic_div((a * one()) as int, b as int);
    vstd::arithmetic::div_mod::lemma_small_mod(a * one(), b);
    assert(spacing(0) == 1);
}

impl Double {
    /// Zero.
    pub fn zero() -> (number: Double)
        ensures
            number.wf(),
            number.power == 0,
            number.units() == 0,
    {
        Double { mantissa: 0, power: 0 }
    }

    /// The double nearest to a whole number.
    pub fn whole(number: u64) -> (found: Double)
        ensures
            found.wf(),
            found.power <= 1314,
            found.units() == nearest_double(number as nat, 1),
    {
        proof {
            lemma2_to64();
            lemma2_to64_rest();
            crate::percent::lemma_limits();
            crate::percent::lemma_grows(64, 119);
            lemma_pow2_pos(1074);
            assert(number * pow2(0) == number * 1 + 0);
            lemma_scaled_parts(number as nat, 1, 0, number as nat, 0);
        }
        round(number as u128, 1074, false, Ghost(number as nat), Ghost(1))
    }

    /// The product of two numbers.
    pub fn times(self, other: Double) -> (found: Double)
        requires
            self.wf(),
            other.wf(),
            self.power + other.power <= 9_000,
        ensures
            found.wf(),
            found.power <= self.power + other.power + 240,
            found.units() == product(self.units(), other.units()),
    {
        let ghost a = self.units() * other.units();
        let ghost b = one() * one();
        assert(self.mantissa * other.mantissa <= 0x20_0000_0000_0000 * 0x20_0000_0000_0000)
            by (nonlinear_arith)
            requires
                self.mantissa <= 0x20_0000_0000_0000,
                other.mantissa <= 0x20_0000_0000_0000,
        ;
        let parts: u128 = self.mantissa as u128 * other.mantissa as u128;
        let t: i64 = self.power as i64 + other.power as i64 - 1074;
        proof {
            let both = (self.power + other.power) as nat;
            let m = self.mantissa * other.mantissa;
            lemma2_to64();
            crate::percent::lemma_limits();
            lemma_pow2_adds(53, 53);
            lemma_pow2_unfold(107);
            crate::percent::lemma_grows(107, 119);
            lemma_pow2_pos(1074);
            lemma_pow2_adds(self.power as nat, other.power as nat);
            assert(b > 0) by (nonlinear_arith)
                requires
                    one() > 0,
                    b == one() * one(),
            ;
            assert(a == m * pow2(both)) by (nonlinear_arith)
                requires
                    a == (self.mantissa * pow2(self.power as nat)) * (other.mantissa * pow2(
                        other.power as nat,
                    )),
                    m == self.mantissa * other.mantissa,
                    pow2(both) == pow2(self.power as nat) * pow2(other.power as nat),
            ;
            if t < 0 {
                lemma_pow2_adds(both, (-t) as nat);
                assert(dividend(a, t as int) == m * b + 0) by (nonlinear_arith)
                    requires
                        dividend(a, t as int) == a * one() * pow2((-t) as nat),
                        a == m * pow2(both),
                        one() == pow2(both) * pow2((-t) as nat),
                        b == one() * one(),
                ;
            } else {
                lemma_pow2_pos(t as nat);
                lemma_pow2_adds(1074, t as nat);
                assert(dividend(a, t as int) == m * (b * pow2(t as nat)) + 0) by (nonlinear_arith)
                    requires
                        dividend(a, t as int) == a * one(),
                        a == m * pow2(both),
                        pow2(both) == one() * pow2(t as nat),
                        b == one() * one(),
                ;
                assert(b * pow2(t as nat) > 0) by (nonlinear_arith)
                    requires
                        b > 0,
                        pow2(t as nat) > 0,
                ;
            }
            lemma_parts(a, b, t as int, parts as nat, 0);
        }
        round(parts, t, false, Ghost(a), Ghost(b))
    }

    /// The sum of two numbers.
    pub fn plus(self, other: Double) -> (found: Double)
        requires
            self.wf(),
            other.wf(),
            self.power <= 8_000,
            other.power <= 8_000,
        ensures
            found.wf(),
            found.power <= self.power + other.power + 240,
            found.units() == sum(self.units(), other.units()),
    {
        let (coarse, fine) = if self.power >= other.power {
            (self, other)
        } else {
            (other, self)
        };
        let gap: u64 = coarse.power - fine.power;
        let ghost a = self.units() + other.units();
        proof {
            crate::percent::lemma_limits();
            lemma2_to64();
            lemma2_to64_rest();
            lemma_pow2_pos(1074);
        }
        if gap <= 64 {
            let p: u128 = crate::percent::power(gap);
            proof {
                crate::percent::lemma_grows(gap as nat, 64);
                lemma_pow2_adds(53, 64);
                lemma_pow2_unfold(118);
                crate::percent::lemma_grows(118, 119);
                assert(coarse.mantissa * p <= 0x20_0000_0000_0000 * pow2(64)) by (nonlinear_arith)
                    requires
                        coarse.mantissa <= 0x20_0000_0000_0000,
                        p <= pow2(64),
                ;
            }
            let parts: u128 = coarse.mantissa as u128 * p + fine.mantissa as u128;
            proof {
                let pf = pow2(fine.power as nat);
                lemma_pow2_pos(fine.power as nat);
                lemma_pow2_adds(gap as nat, fine.power as nat);
                assert(a * one() == (coarse.mantissa * p + fine.mantissa) * (one() * pf) + 0) by (
                nonlinear_arith)
                    requires
                        a == coarse.mantissa * (p * pf) + fine.mantissa * pf,
                ;
                assert(one() * pf > 0) by (nonlinear_arith)
                    requires
                        one() > 0,
                        pf > 0,
                ;
                lemma_parts(a, one(), fine.power as int, parts as nat, 0);
            }
            return round(parts, fine.power as i64, false, Ghost(a), Ghost(one()));
        }
        let parts: u128 = coarse.mantissa as u128 * 4;
        let t: i64 = coarse.power as i64 - 2;
        proof {
            let pt = pow2(t as nat);
            let rest = fine.units();
            lemma_pow2_pos(t as nat);
            lemma_pow2_pos(fine.power as nat);
            lemma_pow2_adds(2, t as nat);
            lemma_pow2_adds(53, fine.power as nat);
            lemma_pow2_strictly_increases((53 + fine.power) as nat, t as nat);
            crate::percent::lemma_grows(56, 119);
            lemma_pow2_unfold(55);
            lemma_pow2_unfold(56);
            assert(rest <= pow2(53) * pow2(fine.power as nat)) by (nonlinear_arith)
                requires
                    rest == fine.mantissa * pow2(fine.power as nat),
                    fine.mantissa <= pow2(53),
            ;
            assert(a == (coarse.mantissa * 4) * pt + rest) by (nonlinear_arith)
                requires
                    a == coarse.mantissa * (4 * pt) + rest,
            ;
            assert(a * one() == (coarse.mantissa * 4) * (one() * pt) + rest * one()) by (
            nonlinear_arith)
                requires
                    a == (coarse.mantissa * 4) * pt + rest,
            ;
            assert(rest * one() < one() * pt) by (nonlinear_arith)
                requires
                    rest < pt,
                    one() > 0,
            ;
            assert(rest * one() != 0 <==> fine.mantissa > 0) by (nonlinear_arith)
                requires
                    rest == fine.mantissa * pow2(fine.power as nat),
                    pow2(fine.power as nat) > 0,
                    one() > 0,
            ;
            lemma_parts(a, one(), t as int, parts as nat, (rest * one()) as nat);
        }
        round(parts, t, fine.mantissa > 0, Ghost(a), Ghost(one()))
    }

    /// The quotient of a number and a whole number of at most 32 bits.
    pub fn over(self, number: u32) -> (found: Double)
        requires
            self.wf(),
            self.power <= 8_000,
            number > 0,
        ensures
            found.wf(),
            found.power <= self.power + 240,
            found.units() == nearest_double(self.units(), number as nat * one()),
    {
        let ghost a = self.units();
        let ghost b = number as nat * one();
        let dividend_parts: u128 = self.mantissa as u128 * 0x1_0000_0000_0000_0000;
        let parts: u128 = dividend_parts / number as u128;
        let rest: u128 = dividend_parts % number as u128;
        let t: i64 = self.power as i64 - 64;
        proof {
            lemma2_to64();
            lemma2_to64_rest();
            crate::percent::lemma_limits();
            lemma_pow2_adds(53, 64);
            lemma_pow2_unfold(118);
            lemma_pow2_unfold(119);
            lemma_pow2_pos(1074);
            lemma_pow2_pos(self.power as nat);
            let m = self.mantissa as nat;
            let n = number as nat;
            vstd::arithmetic::div_mod::lemma_fundamental_div_mod(
                dividend_parts as int,
                number as int,
            );
            vstd::arithmetic::div_mod::lemma_div_is_ordered_by_denominator(
                dividend_parts as int,
                1,
                number as int,
            );
            assert(b > 0) by (nonlinear_arith)
                requires
                    b == n * one(),
                    n > 0,
                    one() > 0,
            ;
            let scaled = if t < 0 {
                pow2((-t) as nat)
            } else {
                1
            };
            let wide = if t < 0 {
                1
            } else {
                pow2(t as nat)
            };
            if t < 0 {
                lemma_pow2_adds(self.power as nat, (-t) as nat);
            } else {
                lemma_pow2_pos(t as nat);
                lemma_pow2_adds(64, t as nat);
            }
            assert(pow2(self.power as nat) * scaled == pow2(64) * wide);
            assert(dividend(a, t as int) == (m * pow2(64)) * (wide * one())) by (nonlinear_arith)
                requires
                    dividend(a, t as int) == a * one() * scaled || (scaled == 1 && dividend(
                        a,
                        t as int,
                    ) == a * one()),
                    a == m * pow2(self.power as nat),
                    pow2(self.power as nat) * scaled == pow2(64) * wide,
            ;
            assert(divisor(b, t as int) == n * (wide * one())) by (nonlinear_arith)
                requires
                    divisor(b, t as int) == b * wide || (wide == 1 && divisor(b, t as int) == b),
                    b == n * one(),
            ;
            let c = wide * one();
            assert(c > 0) by (nonlinear_arith)
                requires
                    c == wide * one(),
                    wide > 0,
                    one() > 0,
            ;
            assert(dividend(a, t as int) == parts * (n * c) + rest * c) by (nonlinear_arith)
                requires
                    dividend(a, t as int) == (m * pow2(64)) * c,
                    m * pow2(64) == n * parts + rest,
            ;
            assert(rest * c < n * c) by (nonlinear_arith)
                requires
                    rest < n,
                    c > 0,
            ;
            assert(rest * c != 0 <==> rest != 0) by (nonlinear_arith)
                requires
                    c > 0,
            ;
            lemma_parts(a, b, t as int, parts as nat, (rest * c) as nat);
            if t >= 0 {
                assert(parts >= 0x20_0000_0000_0000) by {
                    if parts < 0x20_0000_0000_0000 {
                        assert(n * parts + rest < m * pow2(64)) by (nonlinear_arith)
                            requires
                                parts < 0x20_0000_0000_0000,
                                n < 0x1_0000_0000,
                                rest < n,
                                m >= 0x10_0000_0000_0000,
                                pow2(64) == 0x1_0000_0000_0000_0000,
                        ;
                    }
                }
            }
        }
        round(parts, t, rest != 0, Ghost(a), Ghost(b))
    }

    /// The least whole number that is not less, where the number is less than `2^52`.
    pub fn ceil(self) -> (whole: Option<u64>)
        requires
            self.wf(),
        ensures
            match whole {
                Some(found) => found == (self.units() + one() - 1) / one() as int && self.power
                    < 1074,
                None => self.units() >= pow2(52) * one(),
            },
    {
        if self.power >= 1074 {
            proof {
                lemma2_to64_rest();
                crate::percent::lemma_grows(1074, self.power as nat);
                assert(self.units() >= pow2(52) * one()) by (nonlinear_arith)
                    requires
                        self.units() == self.mantissa * pow2(self.power as nat),
                        self.mantissa >= pow2(52),
                        pow2(self.power as nat) >= one(),
                ;
            }
            return None;
        }
        let scale: u64 = 1074 - self.power;
        let ghost p = pow2(scale as nat);
        let ghost c = pow2(self.power as nat);
        let whole: u64 = if scale < 64 {
            let power: u128 = crate::percent::power(scale);
            proof {
                lemma_pow2_pos(scale as nat);
                vstd::arithmetic::div_mod::lemma_div_is_ordered_by_denominator(
                    self.mantissa as int,
                    1,
                    power as int,
                );
            }
            let quotient: u64 = (self.mantissa as u128 / power) as u64;
            if self.mantissa as u128 % power == 0 {
                quotient
            } else {
                quotient + 1
            }
        } else if self.mantissa == 0 {
            0
        } else {
            1
        };
        proof {
            lemma_pow2_adds(self.power as nat, scale as nat);
            lemma_pow2_pos(scale as nat);
            lemma_pow2_pos(self.power as nat);
            if scale >= 64 {
                crate::percent::lemma_limits();
                lemma_pow2_unfold(54);
                crate::percent::lemma_grows(54, scale as nat);
                assert(self.mantissa < p);
                vstd::arithmetic::div_mod::lemma_basic_div(self.mantissa as int, p as int);
                vstd::arithmetic::div_mod::lemma_small_mod(self.mantissa as nat, p);
            }
            assert(p * c == one()) by (nonlinear_arith)
                requires
                    one() == c * p,
            ;
            lemma_ceil(self.mantissa as nat, p, c);
        }
        Some(whole)
    }
}

proof fn lemma_ceil(a: nat, p: nat, c: nat)
    requires
        p > 0,
        c > 0,
    ensures
        (a * c + p * c - 1) / (p * c) as int == a / p + if a % p == 0 {
            0int
        } else {
            1int
        },
{
    let quotient = (a / p) as int;
    let rest = (a % p) as int;
    vstd::arithmetic::div_mod::lemma_fundamental_div_mod(a as int, p as int);
    let total = a * c + p * c - 1;
    if rest == 0 {
        assert(total == quotient * (p * c) + (p * c - 1)) by (nonlinear_arith)
            requires
                total == a * c + p * c - 1,
                a == p * quotient,
        ;
        assert(p * c > 0) by (nonlinear_arith)
            requires
                p > 0,
                c > 0,
        ;
        vstd::arithmetic::div_mod::lemma_fundamental_div_mod_converse(
            total,
            (p * c) as int,
            quotient,
            p * c - 1,
        );
    } else {
        assert(total == (quotient + 1) * (p * c) + (rest * c - 1)) by (nonlinear_arith)
            requires
                total == a * c + p * c - 1,
                a == p * quotient + rest,
        ;
        assert(0 <= rest * c - 1 < p * c) by (nonlinear_arith)
            requires
                1 <= rest < p,
                c > 0,
        ;
        vstd::arithmetic::div_mod::lemma_fundamental_div_mod_converse(
            total,
            (p * c) as int,
            quotient + 1,
            rest * c - 1,
        );
    }
}

pub(crate) proof fn lemma_value_bounded(digits: Seq<u8>)
    requires
        forall|i: int| 0 <= i < digits.len() ==> #[trigger] digits[i] < 10,
    ensures
        crate::percent::value(digits) < pow(10, digits.len()),
    decreases digits.len(),
{
    reveal(pow);
    if digits.len() > 0 {
        let rest = digits.drop_first();
        assert forall|i: int| 0 <= i < rest.len() implies #[trigger] rest[i] < 10 by {
            assert(rest[i] == digits[i + 1]);
        }
        lemma_value_bounded(rest);
        assert(digits[0] < 10);
    }
}

/// Doubles the digits after the point, the last digit first, and gives what is carried.
fn double_digits(digits: &mut Vec<u8>) -> (carry: u8)
    requires
        forall|i: int| 0 <= i < old(digits)@.len() ==> #[trigger] old(digits)@[i] < 10,
    ensures
        carry <= 1,
        final(digits)@.len() == old(digits)@.len(),
        forall|i: int| 0 <= i < final(digits)@.len() ==> #[trigger] final(digits)@[i] < 10,
        2 * crate::percent::value(old(digits)@) == crate::percent::value(final(digits)@) + carry
            * pow(10, old(digits)@.len()),
{
    let mut carry: u8 = 0;
    let count: usize = digits.len();
    let ghost before = digits@;
    let mut i: usize = 0;
    proof {
        reveal(pow);
        assert(before.take(0) =~= Seq::<u8>::empty());
        assert(digits@.take(0) =~= Seq::<u8>::empty());
    }
    while i < count
        invariant
            i <= count,
            count == digits@.len(),
            before.len() == count,
            carry <= 1,
            forall|k: int| 0 <= k < count ==> #[trigger] before[k] < 10,
            forall|k: int| 0 <= k < count ==> #[trigger] digits@[k] < 10,
            forall|k: int| i <= k < count ==> #[trigger] digits@[k] == before[k],
            2 * crate::percent::value(before.take(i as int)) == crate::percent::value(
                digits@.take(i as int),
            ) + carry * pow(10, i as nat),
        decreases count - i,
    {
        let ghost done = digits@.take(i as int);
        let ghost carried = carry;
        let digit: u8 = digits[i];
        assert(digit == before[i as int]);
        let twice: u8 = digit * 2 + carry;
        let kept: u8 = twice % 10;
        digits.set(i, kept);
        carry = twice / 10;
        proof {
            assert(digits@.take(i + 1) =~= done.push(kept));
            assert(before.take(i + 1) =~= before.take(i as int).push(digit));
            crate::percent::lemma_value_of_pushed(done, kept);
            crate::percent::lemma_value_of_pushed(before.take(i as int), digit);
            let ten = pow(10, i as nat);
            reveal(pow);
            assert(pow(10, (i + 1) as nat) == 10 * ten);
            assert(2 * (digit * ten) + carried * ten == kept * ten + carry * (10 * ten)) by (
            nonlinear_arith)
                requires
                    2 * digit + carried == kept + 10 * carry,
            ;
        }
        i = i + 1;
    }
    proof {
        assert(before.take(count as int) =~= before);
        assert(digits@.take(count as int) =~= digits@);
    }
    carry
}

pub(crate) fn all_zero(digits: &Vec<u8>) -> (yes: bool)
    ensures
        yes == (crate::percent::value(digits@) == 0),
{
    let mut i: usize = digits.len();
    assert(digits@.skip(digits@.len() as int) =~= Seq::<u8>::empty());
    while i > 0
        invariant
            i <= digits@.len(),
            crate::percent::value(digits@.skip(i as int)) == 0,
        decreases i,
    {
        i = i - 1;
        assert(digits@.skip(i as int).drop_first() =~= digits@.skip(i + 1));
        if digits[i] != 0 {
            proof {
                lemma_value_grows(digits@, i as int);
            }
            return false;
        }
    }
    assert(digits@.skip(0) =~= digits@);
    true
}

proof fn lemma_value_grows(digits: Seq<u8>, i: int)
    requires
        0 <= i <= digits.len(),
        crate::percent::value(digits.skip(i)) > 0,
    ensures
        crate::percent::value(digits) > 0,
    decreases i,
{
    if i > 0 {
        assert(digits.skip(i - 1).drop_first() =~= digits.skip(i));
        lemma_value_grows(digits, i - 1);
    } else {
        assert(digits.skip(0) =~= digits);
    }
}

/// The double nearest to a decimal number less than `2^53`: its whole part, and the digits after
/// the point, the last digit first.
pub fn decimal(whole: u64, digits: Vec<u8>) -> (number: Double)
    requires
        whole < 0x20_0000_0000_0000,
        forall|i: int| 0 <= i < digits@.len() ==> #[trigger] digits@[i] < 10,
    ensures
        number.wf(),
        number.power <= 1314,
        number.units() == nearest_double(
            (whole * pow(10, digits@.len()) + crate::percent::value(digits@)) as nat,
            pow(10, digits@.len()) as nat,
        ),
{
    let mut digits = digits;
    let mut parts: u128 = whole as u128;
    let mut scale: u64 = 0;
    let ghost b = pow(10, digits@.len()) as nat;
    let ghost a = (whole * pow(10, digits@.len()) + crate::percent::value(digits@)) as nat;
    let ghost count = digits@.len();
    proof {
        lemma2_to64();
        lemma_value_bounded(digits@);
        vstd::arithmetic::power::lemma_pow_positive(10, count);
        assert(whole * pow(10, count) >= 0) by (nonlinear_arith)
            requires
                pow(10, count) > 0,
        ;
    }
    while parts < 0x40_0000_0000_0000 && scale < 1075
        invariant
            b > 0,
            b == pow(10, count),
            count == digits@.len(),
            forall|i: int| 0 <= i < digits@.len() ==> #[trigger] digits@[i] < 10,
            crate::percent::value(digits@) < b,
            scale <= 1075,
            parts < 0x80_0000_0000_0000,
            a * pow2(scale as nat) == parts * b + crate::percent::value(digits@),
        decreases 1075 - scale,
    {
        let ghost before = crate::percent::value(digits@);
        let ghost earlier = parts;
        let carry: u8 = double_digits(&mut digits);
        proof {
            lemma_value_bounded(digits@);
            lemma_pow2_unfold((scale + 1) as nat);
            let after = crate::percent::value(digits@);
            assert(a * pow2((scale + 1) as nat) == (earlier * 2 + carry) * b + after) by (
            nonlinear_arith)
                requires
                    a * pow2(scale as nat) == earlier * b + before,
                    pow2((scale + 1) as nat) == 2 * pow2(scale as nat),
                    2 * before == after + carry * b,
            ;
        }
        parts = parts * 2 + carry as u128;
        scale = scale + 1;
    }
    let left = !all_zero(&digits);
    proof {
        lemma_scaled_parts(a, b, scale as nat, parts as nat, crate::percent::value(digits@));
        crate::percent::lemma_limits();
        lemma_pow2_unfold(55);
        crate::percent::lemma_grows(55, 119);
    }
    round(parts, 1074 - scale as i64, left, Ghost(a), Ghost(b))
}

/// The double nearest to a thousandth.
pub fn thousandth() -> (number: Double)
    ensures
        number.wf(),
        number.power <= 1074,
        number.units() == nearest_double(1, 1000),
        number.units() * 1024 >= one(),
{
    proof {
        lemma2_to64();
        lemma2_to64_rest();
        lemma_scaled_parts(1, 1000, 64, 18_446_744_073_709_551, 616);
        lemma_nearest_double(1, 1000, 1010, 2);
        lemma_pow2_adds(64, 1010);
        lemma_pow2_pos(1010);
        assert(pow2(64) == 0x1_0000_0000_0000_0000);
        assert(crate::percent::nearest(pow2(64), 4000) == 0x10_624d_d2f1_a9fc);
        crate::percent::lemma_nearest_scales(pow2(64), 4000, pow2(1010));
        assert(1000 * pow2(1010) * 4 == 4000 * pow2(1010));
        lemma_pow2_adds(62, 1012);
        lemma_pow2_pos(1012);
    }
    Double { mantissa: 0x10_624d_d2f1_a9fc, power: 1012 }
}

/// A number that is not negative, and no negative zero; it may be infinite.
pub open spec fn is_plain(level: Level) -> bool {
    level.bits <= INFINITE
}

/// The units of a number without its sign. Infinity has the units of the power of two that is too
/// great for a double.
pub open spec fn level_units(level: Level) -> nat {
    crate::percent::mantissa(level) * pow2((crate::percent::scale(level) + 1074) as nat)
}

/// The units of infinity.
pub open spec fn infinite_units() -> nat {
    pow2(2098)
}

/// The units of a number, or of infinity where the number is too great.
pub open spec fn capped(units: nat) -> nat {
    if units < infinite_units() {
        units
    } else {
        infinite_units()
    }
}

/// The number that has these units.
pub open spec fn level_of(units: nat) -> Level {
    choose|level: Level| is_plain(level) && #[trigger] level_units(level) == units
}

proof fn lemma_level_parts(level: Level)
    requires
        level.magnitude() <= INFINITE,
    ensures
        crate::percent::exponent(level) == 0 ==> crate::percent::mantissa(level) < BINADE
            && crate::percent::scale(level) + 1074 == 0,
        crate::percent::exponent(level) > 0 ==> BINADE <= crate::percent::mantissa(level) < 2
            * BINADE && crate::percent::scale(level) + 1074 == crate::percent::exponent(level) - 1,
        level.magnitude() == crate::percent::exponent(level) * BINADE + level.magnitude()
            % BINADE as int,
{
}

/// Greater numbers have more units.
pub proof fn units_follow_the_order(a: Level, b: Level)
    requires
        a.magnitude() < b.magnitude() <= INFINITE,
    ensures
        level_units(a) < level_units(b),
{
    lemma_level_parts(a);
    lemma_level_parts(b);
    lemma2_to64();
    let ea = crate::percent::exponent(a);
    let eb = crate::percent::exponent(b);
    let ma = crate::percent::mantissa(a);
    let mb = crate::percent::mantissa(b);
    let pa = pow2((crate::percent::scale(a) + 1074) as nat);
    let pb = pow2((crate::percent::scale(b) + 1074) as nat);
    lemma_pow2_pos((crate::percent::scale(a) + 1074) as nat);
    if ea == eb {
        assert(ma * pa < mb * pa) by (nonlinear_arith)
            requires
                ma < mb,
                pa > 0,
        ;
    } else {
        assert(ea < eb);
        if ea == 0 {
            assert(pa == 1);
            assert(level_units(a) == ma) by (nonlinear_arith)
                requires
                    level_units(a) == ma * pa,
                    pa == 1,
            ;
            lemma_pow2_pos((crate::percent::scale(b) + 1074) as nat);
            assert(mb * pb >= mb) by (nonlinear_arith)
                requires
                    pb >= 1,
            ;
        } else {
            lemma_pow2_unfold(ea as nat);
            crate::percent::lemma_grows(ea as nat, (eb - 1) as nat);
            assert(ma * pa < mb * pb) by (nonlinear_arith)
                requires
                    ma < 2 * BINADE,
                    mb >= BINADE,
                    pb >= 2 * pa,
                    pa > 0,
            ;
        }
    }
}

/// Units say which number has them.
pub proof fn level_of_its_units(level: Level)
    requires
        is_plain(level),
    ensures
        level_of(level_units(level)) == level,
{
    let other = level_of(level_units(level));
    assert(is_plain(other) && level_units(other) == level_units(level));
    if other.magnitude() < level.magnitude() {
        units_follow_the_order(other, level);
    } else if level.magnitude() < other.magnitude() {
        units_follow_the_order(level, other);
    }
}

impl Double {
    /// A number, or infinity where it is too great.
    pub fn cap(self) -> (found: Double)
        requires
            self.wf(),
        ensures
            found.wf(),
            found.power <= 2046,
            found.units() == capped(self.units()),
            found.power == 2046 <==> self.units() >= infinite_units(),
            found.power * BINADE + found.mantissa <= INFINITE,
    {
        proof {
            lemma2_to64_rest();
            crate::percent::lemma_limits();
            lemma_pow2_pos(self.power as nat);
            lemma_pow2_adds(52, 2046);
            lemma_pow2_adds(53, 2045);
        }
        if self.power >= 2046 {
            proof {
                crate::percent::lemma_grows(2046, self.power as nat);
                assert(self.units() >= infinite_units()) by (nonlinear_arith)
                    requires
                        self.units() == self.mantissa * pow2(self.power as nat),
                        self.mantissa >= pow2(52),
                        pow2(self.power as nat) >= pow2(2046),
                        infinite_units() == pow2(52) * pow2(2046),
                ;
            }
            Double { mantissa: BINADE, power: 2046 }
        } else if self.power == 2045 && self.mantissa == 0x20_0000_0000_0000 {
            Double { mantissa: BINADE, power: 2046 }
        } else {
            proof {
                if self.power == 2045 {
                    assert(self.units() < infinite_units()) by (nonlinear_arith)
                        requires
                            self.units() == self.mantissa * pow2(2045),
                            self.mantissa < pow2(53),
                            infinite_units() == pow2(53) * pow2(2045),
                            pow2(2045) > 0,
                    ;
                } else {
                    lemma_pow2_strictly_increases(self.power as nat, 2045);
                    let small = pow2(self.power as nat);
                    assert(self.mantissa * small <= pow2(53) * small) by (nonlinear_arith)
                        requires
                            self.mantissa <= pow2(53),
                    ;
                    assert(pow2(53) * small < pow2(53) * pow2(2045)) by (nonlinear_arith)
                        requires
                            pow2(53) > 0,
                            small < pow2(2045),
                    ;
                }
                assert(self.power * BINADE <= 2045 * BINADE) by (nonlinear_arith)
                    requires
                        self.power <= 2045,
                ;
            }
            self
        }
    }

    /// The number as a level, infinity where it is too great.
    pub fn level(self) -> (level: Level)
        requires
            self.wf(),
        ensures
            is_plain(level),
            level_units(level) == capped(self.units()),
            level == level_of(capped(self.units())),
    {
        let number = self.cap();
        let power: u64 = number.power;
        let level = Level { bits: power * BINADE + number.mantissa };
        proof {
            vstd::arithmetic::div_mod::lemma_fundamental_div_mod(level.bits as int, BINADE as int);
            if number.mantissa < BINADE {
                assert(level.bits == number.mantissa);
                lemma2_to64();
            } else if number.mantissa < 2 * BINADE {
                vstd::arithmetic::div_mod::lemma_fundamental_div_mod_converse(
                    level.bits as int,
                    BINADE as int,
                    power + 1,
                    number.mantissa - BINADE,
                );
            } else {
                vstd::arithmetic::div_mod::lemma_fundamental_div_mod_converse(
                    level.bits as int,
                    BINADE as int,
                    power + 2,
                    0,
                );
                lemma_pow2_unfold((power + 1) as nat);
                assert(BINADE * pow2((power + 1) as nat) == number.mantissa * pow2(power as nat))
                    by (nonlinear_arith)
                    requires
                        pow2((power + 1) as nat) == 2 * pow2(power as nat),
                        number.mantissa == 2 * BINADE,
                ;
            }
            level_of_its_units(level);
        }
        level
    }

    /// The number of a level, without its sign.
    pub fn of(level: Level) -> (number: Double)
        requires
            level.magnitude() <= INFINITE,
        ensures
            number.wf(),
            number.power <= 2046,
            number.units() == level_units(level),
    {
        let (exponent, mantissa) = crate::percent::parts(level);
        proof {
            lemma_level_parts(level);
        }
        if exponent == 0 {
            Double { mantissa, power: 0 }
        } else {
            Double { mantissa, power: exponent - 1 }
        }
    }
}

pub(crate) proof fn lemma_same_quotient(a: nat, b: nat, c: nat, d: nat)
    requires
        b > 0,
        d > 0,
        a * d == c * b,
    ensures
        nearest_double(a, b) == nearest_double(c, d),
{
    lemma_scaled_quotient(a, b, d);
    lemma_scaled_quotient(c, d, b);
    assert(b * d == d * b) by (nonlinear_arith);
}

pub(crate) proof fn lemma_scaled_quotient(a: nat, b: nat, c: nat)
    requires
        b > 0,
        c > 0,
    ensures
        nearest_double(a * c, b * c) == nearest_double(a, b),
{
    let units = a * one();
    assert((a * c) * one() == units * c) by (nonlinear_arith)
        requires
            units == a * one(),
    ;
    let quotient = units / b;
    let rest = units % b;
    vstd::arithmetic::div_mod::lemma_fundamental_div_mod(units as int, b as int);
    assert(units * c == quotient * (b * c) + rest * c) by (nonlinear_arith)
        requires
            units == b * quotient + rest,
    ;
    assert(0 <= rest * c < b * c) by (nonlinear_arith)
        requires
            0 <= rest < b,
            c > 0,
    ;
    vstd::arithmetic::div_mod::lemma_fundamental_div_mod_converse(
        (units * c) as int,
        (b * c) as int,
        quotient as int,
        (rest * c) as int,
    );
    let unit = spacing(quotient);
    let u = lemma_spacing_of(quotient);
    lemma_pow2_pos(u);
    assert(b * unit > 0) by (nonlinear_arith)
        requires
            b > 0,
            unit > 0,
    ;
    crate::percent::lemma_nearest_scales(units, b * unit, c);
    assert((b * c) * unit == (b * unit) * c) by (nonlinear_arith);
}

/// A number other than zero, as a mantissa of 53 bits and a power of two: `mantissa * 2^power`
/// units, divided by `2^moved`.
struct Normal {
    mantissa: u64,
    power: u64,
    moved: u64,
}

fn normal(level: Level) -> (found: Normal)
    requires
        level.magnitude() < INFINITE,
        level_units(level) > 0,
    ensures
        BINADE <= found.mantissa < 2 * BINADE,
        found.power <= 2046,
        found.moved <= 52,
        level_units(level) * pow2(found.moved as nat) == found.mantissa * pow2(found.power as nat),
{
    let (exponent, mantissa) = crate::percent::parts(level);
    proof {
        lemma_level_parts(level);
        lemma2_to64();
        lemma2_to64_rest();
    }
    let power: u64 = if exponent == 0 {
        0
    } else {
        exponent - 1
    };
    let mut mantissa: u64 = mantissa;
    let mut moved: u64 = 0;
    let ghost units = level_units(level);
    proof {
        assert(units == mantissa * pow2(power as nat));
        assert(units * 1 == units);
        assert(mantissa > 0) by (nonlinear_arith)
            requires
                units == mantissa * pow2(power as nat),
                units > 0,
        ;
        assert(mantissa * pow2(0) >= pow2(0));
    }
    while mantissa < BINADE
        invariant
            0 < mantissa < 2 * BINADE,
            moved <= 52,
            moved > 0 ==> power == 0,
            mantissa < BINADE ==> power == 0,
            mantissa >= pow2(moved as nat),
            pow2(52) == BINADE,
            units * pow2(moved as nat) == mantissa * pow2(power as nat),
        decreases 2 * BINADE - mantissa,
    {
        proof {
            lemma_pow2_unfold((moved + 1) as nat);
            if moved >= 52 {
                crate::percent::lemma_grows(52, moved as nat);
            }
            assert(units * pow2((moved + 1) as nat) == (2 * mantissa) * pow2(power as nat)) by (
            nonlinear_arith)
                requires
                    units * pow2(moved as nat) == mantissa * pow2(power as nat),
                    pow2((moved + 1) as nat) == 2 * pow2(moved as nat),
            ;
        }
        mantissa = mantissa * 2;
        moved = moved + 1;
    }
    Normal { mantissa, power, moved }
}

/// The quotient of two numbers, where it is at most one.
pub fn ratio(a: Level, b: Level) -> (found: Double)
    requires
        a.magnitude() <= b.magnitude() < INFINITE,
        level_units(b) > 0,
    ensures
        found.wf(),
        found.units() == nearest_double(level_units(a), level_units(b)),
{
    let ghost ua = level_units(a);
    let ghost ub = level_units(b);
    let (_, lead) = crate::percent::parts(a);
    proof {
        lemma_level_parts(a);
        lemma_pow2_pos((crate::percent::scale(a) + 1074) as nat);
        lemma_pow2_pos(1074);
        if a.magnitude() < b.magnitude() {
            units_follow_the_order(a, b);
        } else {
            assert(ua == ub);
        }
    }
    if lead == 0 {
        proof {
            assert(ua == 0) by (nonlinear_arith)
                requires
                    ua == lead * pow2((crate::percent::scale(a) + 1074) as nat),
                    lead == 0,
            ;
            assert(ua * one() == 0) by (nonlinear_arith)
                requires
                    ua == 0,
            ;
            lemma_vanishes(ua, ub);
        }
        return Double::zero();
    }
    assert(ua > 0) by (nonlinear_arith)
        requires
            ua == lead * pow2((crate::percent::scale(a) + 1074) as nat),
            lead > 0,
            pow2((crate::percent::scale(a) + 1074) as nat) > 0,
    ;
    let top = normal(a);
    let bottom = normal(b);
    let high: u64 = bottom.power + top.moved;
    let low: u64 = top.power + bottom.moved;
    let ghost ma = top.mantissa as nat;
    let ghost mb = bottom.mantissa as nat;
    proof {
        lemma_pow2_pos(high as nat);
        lemma_pow2_pos(low as nat);
        lemma_pow2_adds(bottom.power as nat, top.moved as nat);
        lemma_pow2_adds(top.power as nat, bottom.moved as nat);
        lemma_pow2_adds(top.moved as nat, bottom.moved as nat);
        lemma_pow2_pos((top.moved + bottom.moved) as nat);
        let shift = pow2((top.moved + bottom.moved) as nat);
        assert(ua * shift == ma * pow2(low as nat)) by (nonlinear_arith)
            requires
                ua * pow2(top.moved as nat) == ma * pow2(top.power as nat),
                shift == pow2(top.moved as nat) * pow2(bottom.moved as nat),
                pow2(low as nat) == pow2(top.power as nat) * pow2(bottom.moved as nat),
        ;
        assert(ub * shift == mb * pow2(high as nat)) by (nonlinear_arith)
            requires
                ub * pow2(bottom.moved as nat) == mb * pow2(bottom.power as nat),
                shift == pow2(top.moved as nat) * pow2(bottom.moved as nat),
                pow2(high as nat) == pow2(bottom.power as nat) * pow2(top.moved as nat),
        ;
        assert(low <= high) by {
            if low > high {
                lemma_pow2_unfold(low as nat);
                crate::percent::lemma_grows(high as nat, (low - 1) as nat);
                assert(ma * pow2(low as nat) > mb * pow2(high as nat)) by (nonlinear_arith)
                    requires
                        ma >= BINADE,
                        mb < 2 * BINADE,
                        pow2(low as nat) >= 2 * pow2(high as nat),
                        pow2(high as nat) > 0,
                ;
                assert(ua * shift <= ub * shift) by (nonlinear_arith)
                    requires
                        ua <= ub,
                ;
            }
        }
        let d = (high - low) as nat;
        lemma_pow2_adds(low as nat, d);
        lemma_pow2_pos(d);
        let wide = mb * pow2(d);
        assert(wide > 0) by (nonlinear_arith)
            requires
                wide == mb * pow2(d),
                mb >= 1,
                pow2(d) > 0,
        ;
        assert(ua * wide == ma * ub) by {
            assert((ua * wide) * shift == (ma * ub) * shift) by (nonlinear_arith)
                requires
                    ua * shift == ma * pow2(low as nat),
                    ub * shift == mb * pow2(high as nat),
                    pow2(high as nat) == pow2(low as nat) * pow2(d),
                    wide == mb * pow2(d),
            ;
            lemma_cancel(ua * wide, ma * ub, shift);
            lemma_cancel(ma * ub, ua * wide, shift);
        }
        lemma_same_quotient(ua, ub, ma, wide);
    }
    let distance: u64 = high - low;
    let ghost wide = mb * pow2(distance as nat);
    if distance > 1100 {
        proof {
            lemma2_to64();
            crate::percent::lemma_limits();
            lemma_pow2_adds(53, 1074);
            lemma_pow2_unfold(1128);
            crate::percent::lemma_grows(1101, distance as nat);
            lemma_pow2_adds(1074, 27);
            lemma_pow2_adds(1074, (distance - 1074) as nat);
            crate::percent::lemma_grows(27, (distance - 1074) as nat);
            assert(2 * (ma * one()) < wide) by (nonlinear_arith)
                requires
                    ma < 2 * BINADE,
                    mb >= BINADE,
                    wide == mb * pow2(distance as nat),
                    pow2(distance as nat) == one() * pow2((distance - 1074) as nat),
                    pow2((distance - 1074) as nat) >= 0x800_0000,
                    one() > 0,
            ;
            lemma_vanishes(ma, wide);
        }
        return Double::zero();
    }
    let scale: u64 = 64 + distance;
    let numerator: u128 = top.mantissa as u128 * 0x1_0000_0000_0000_0000;
    let denominator: u128 = bottom.mantissa as u128;
    let parts: u128 = numerator / denominator;
    let rest: u128 = numerator % denominator;
    proof {
        lemma2_to64();
        lemma2_to64_rest();
        crate::percent::lemma_limits();
        vstd::arithmetic::div_mod::lemma_fundamental_div_mod(numerator as int, denominator as int);
        lemma_pow2_adds(64, distance as nat);
        let p = pow2(distance as nat);
        lemma_pow2_pos(distance as nat);
        assert(ma * pow2(scale as nat) == parts * wide + rest * p) by (nonlinear_arith)
            requires
                numerator == ma * pow2(64),
                numerator == mb * parts + rest,
                pow2(scale as nat) == pow2(64) * p,
                wide == mb * p,
        ;
        assert(rest * p < wide) by (nonlinear_arith)
            requires
                rest < mb,
                wide == mb * p,
                p > 0,
        ;
        assert(rest * p > 0 <==> rest > 0) by (nonlinear_arith)
            requires
                p > 0,
        ;
        lemma_scaled_parts(ma, wide, scale as nat, parts as nat, (rest * p) as nat);
        assert(parts >= 0x20_0000_0000_0000) by {
            if parts < 0x20_0000_0000_0000 {
                assert(mb * parts + rest < numerator) by (nonlinear_arith)
                    requires
                        parts < 0x20_0000_0000_0000,
                        mb < 2 * BINADE,
                        rest < mb,
                        numerator >= BINADE * 0x1_0000_0000_0000_0000,
                ;
            }
        }
        assert(parts < 0x4_0000_0000_0000_0000) by {
            if parts >= 0x4_0000_0000_0000_0000 {
                assert(mb * parts > numerator) by (nonlinear_arith)
                    requires
                        parts >= 0x4_0000_0000_0000_0000,
                        mb >= BINADE,
                        numerator < 2 * BINADE * 0x1_0000_0000_0000_0000,
                ;
            }
        }
        crate::percent::lemma_grows(64, scale as nat);
        lemma_pow2_adds(64, 55);
    }
    round(parts, 1074 - scale as i64, rest != 0, Ghost(ma), Ghost(wide))
}

impl Double {
    /// What is left of one.
    pub fn from_one(self) -> (found: Double)
        requires
            self.wf(),
            self.units() <= one(),
        ensures
            found.wf(),
            found.power <= 1314,
            found.units() == nearest_double((one() - self.units()) as nat, one()),
    {
        let ghost a = (one() - self.units()) as nat;
        let ghost c = pow2(self.power as nat);
        proof {
            lemma2_to64();
            lemma2_to64_rest();
            crate::percent::lemma_limits();
            lemma_pow2_pos(1074);
            lemma_pow2_pos(self.power as nat);
            if self.power > 1074 {
                lemma_pow2_strictly_increases(1074, self.power as nat);
                assert(self.units() > one()) by (nonlinear_arith)
                    requires
                        self.units() == self.mantissa * c,
                        self.mantissa >= 1,
                        c > one(),
                ;
            }
            lemma_pow2_adds(self.power as nat, (1074 - self.power) as nat);
        }
        let scale: u64 = 1074 - self.power;
        if scale < 118 {
            let p: u128 = crate::percent::power(scale);
            proof {
                assert(self.mantissa <= p) by {
                    if self.mantissa > p {
                        assert(self.mantissa * c > c * p) by (nonlinear_arith)
                            requires
                                self.mantissa > p,
                                c > 0,
                        ;
                    }
                }
            }
            let parts: u128 = p - self.mantissa as u128;
            proof {
                assert(a * p == (p - self.mantissa) * one() + 0) by (nonlinear_arith)
                    requires
                        a == one() - self.mantissa * c,
                        one() == c * p,
                ;
                lemma_scaled_parts(a, one(), scale as nat, parts as nat, 0);
                lemma_pow2_strictly_increases(scale as nat, 119);
            }
            return round(parts, 1074 - scale as i64, false, Ghost(a), Ghost(one()));
        }
        proof {
            lemma_pow2_strictly_increases(60, 119);
            lemma_pow2_adds(60, self.power as nat);
            lemma_pow2_adds(53, (60 + self.power) as nat);
            lemma_pow2_strictly_increases((53 + 60 + self.power) as nat, 1074);
        }
        let ghost units = self.units();
        let ghost taken = units * pow2(60);
        proof {
            assert(taken < one()) by (nonlinear_arith)
                requires
                    taken == units * pow2(60),
                    units == self.mantissa * c,
                    self.mantissa <= pow2(53),
                    pow2(53) * (pow2(60) * c) < one(),
            ;
        }
        if self.mantissa == 0 {
            proof {
                assert(units == 0) by (nonlinear_arith)
                    requires
                        units == self.mantissa * c,
                        self.mantissa == 0,
                ;
                assert(one() * pow2(0) == 1 * one() + 0);
                lemma_pow2_strictly_increases(0, 119);
                lemma_scaled_parts(one(), one(), 0, 1, 0);
            }
            return round(1, 1074, false, Ghost(a), Ghost(one()));
        }
        proof {
            assert(taken > 0) by (nonlinear_arith)
                requires
                    taken == units * pow2(60),
                    units == self.mantissa * c,
                    self.mantissa >= 1,
                    c > 0,
                    pow2(60) > 0,
            ;
            assert(a * pow2(60) == (pow2(60) - 1) * one() + (one() - taken)) by (nonlinear_arith)
                requires
                    a == one() - units,
                    taken == units * pow2(60),
            ;
            lemma_scaled_parts(a, one(), 60, (pow2(60) - 1) as nat, (one() - taken) as nat);
        }
        round(0xfff_ffff_ffff_ffff, 1014, true, Ghost(a), Ghost(one()))
    }
}

/// A double is the double nearest to itself.
pub proof fn doubles_are_exact(mantissa: nat, power: nat)
    requires
        mantissa <= 0x20_0000_0000_0000,
    ensures
        nearest_double(mantissa * pow2(power), one()) == mantissa * pow2(power),
{
    let units = mantissa * pow2(power);
    let p = pow2(power);
    lemma2_to64();
    lemma2_to64_rest();
    crate::percent::lemma_limits();
    lemma_pow2_pos(1074);
    lemma_pow2_pos(power);
    vstd::arithmetic::div_mod::lemma_fundamental_div_mod_converse(
        (units * one()) as int,
        one() as int,
        units as int,
        0,
    );
    let u = lemma_spacing_of(units);
    let unit = pow2(u);
    lemma_pow2_pos(u);
    // The number is a multiple of the spacing.
    let count: nat = if u <= power {
        lemma_pow2_adds(u, (power - u) as nat);
        mantissa * pow2((power - u) as nat)
    } else {
        lemma_pow2_unfold(u);
        crate::percent::lemma_grows(power, (u - 1) as nat);
        assert(units <= 0x20_0000_0000_0000 * p) by (nonlinear_arith)
            requires
                units == mantissa * p,
                mantissa <= 0x20_0000_0000_0000,
        ;
        0x10_0000_0000_0000
    };
    assert(units == count * unit) by {
        if u <= power {
            assert(units == count * unit) by (nonlinear_arith)
                requires
                    units == mantissa * p,
                    p == unit * pow2((power - u) as nat),
                    count == mantissa * pow2((power - u) as nat),
            ;
        }
    }
    assert(units * one() == count * (one() * unit) + 0) by (nonlinear_arith)
        requires
            units == count * unit,
    ;
    assert(one() * unit > 0) by (nonlinear_arith)
        requires
            one() > 0,
            unit > 0,
    ;
    vstd::arithmetic::div_mod::lemma_fundamental_div_mod_converse(
        (units * one()) as int,
        (one() * unit) as int,
        count as int,
        0,
    );
}

/// Whole numbers of up to 53 bits are doubles.
pub proof fn whole_numbers_are_exact(number: nat)
    requires
        number <= 0x20_0000_0000_0000,
    ensures
        nearest_double(number, 1) == number * one(),
{
    lemma_pow2_pos(1074);
    lemma_scaled_quotient(number, 1, one());
    assert(1 * one() == one());
    doubles_are_exact(number, 1074);
}

} // verus!
