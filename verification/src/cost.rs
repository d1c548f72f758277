//! What requests cost, in USD. It is worked out in doubles, from prices per million tokens.
use crate::config::Price;
use crate::double::Double;
use crate::level::Level;
use vstd::prelude::*;

verus! {

/// What a request is charged for: tokens at the three prices of its model. Input that was cached
/// counts once, at the price of cached input.
#[derive(Clone, Copy, Debug, PartialEq, Eq, Structural)]
pub struct Charge {
    pub price: Price,
    pub input: u64,
    pub cached: u64,
    pub output: u64,
}

/// A number of tokens times a price.
pub open spec fn term(count: u64, price: Level) -> nat {
    crate::double::capped(
        crate::double::product(
            crate::double::nearest_double(count as nat, 1),
            crate::double::level_units(price),
        ),
    )
}

/// The three terms of a charge, added up from the first to the last.
pub open spec fn terms(charge: Charge) -> nat {
    let input = crate::double::capped(
        crate::double::sum(
            term(charge.input, charge.price.input_per_million),
            term(charge.cached, charge.price.cached_input_per_million),
        ),
    );
    crate::double::capped(
        crate::double::sum(input, term(charge.output, charge.price.output_per_million)),
    )
}

/// A charge: a millionth of its terms.
pub open spec fn charge_units(charge: Charge) -> nat {
    if terms(charge) < crate::double::infinite_units() {
        crate::double::capped(
            crate::double::nearest_double(terms(charge), 1_000_000 * crate::double::one()),
        )
    } else {
        crate::double::infinite_units()
    }
}

/// A cost with a charge added.
pub open spec fn with_charge(cost: Level, charge: Charge) -> Level {
    crate::double::level_of(
        crate::double::capped(
            crate::double::sum(crate::double::level_units(cost), charge_units(charge)),
        ),
    )
}

fn term_of(count: u64, price: Level) -> (found: Double)
    requires
        price.usable(),
    ensures
        found.wf(),
        found.power <= 2046,
        found.units() == term(count, price),
{
    Double::whole(count).times(Double::of(price)).cap()
}

/// Adds a charge to a cost.
pub fn add_charge(cost: Level, charge: Charge) -> (total: Level)
    requires
        crate::double::is_plain(cost),
        crate::config::valid_price(charge.price),
    ensures
        crate::double::is_plain(total),
        total == with_charge(cost, charge),
{
    let input = term_of(charge.input, charge.price.input_per_million);
    let cached = term_of(charge.cached, charge.price.cached_input_per_million);
    let output = term_of(charge.output, charge.price.output_per_million);
    let all = input.plus(cached).cap().plus(output).cap();
    let amount = if all.power == 2046 {
        all
    } else {
        all.over(1_000_000).cap()
    };
    Double::of(cost).plus(amount).level()
}

proof fn lemma_nothing(price: Level)
    ensures
        term(0, price) == 0,
{
    vstd::arithmetic::power2::lemma_pow2_pos(1074);
    vstd::arithmetic::power2::lemma_pow2_pos(2098);
    crate::double::whole_numbers_are_exact(0);
    let u = crate::double::level_units(price);
    crate::double::lemma_scaled_quotient(0, crate::double::one(), crate::double::one());
    assert(0 * crate::double::one() == 0);
    assert(0 * u == 0);
    crate::double::doubles_are_exact(0, 0);
    assert(0 * vstd::arithmetic::power2::pow2(0) == 0);
}

/// What was not used costs nothing, whatever its price: input, cached input and output have each
/// their own price.
pub proof fn each_kind_has_its_price(charge: Charge, price: Level)
    ensures
        charge.input == 0 ==> charge_units(
            Charge { price: Price { input_per_million: price, ..charge.price }, ..charge },
        ) == charge_units(charge),
        charge.cached == 0 ==> charge_units(
            Charge { price: Price { cached_input_per_million: price, ..charge.price }, ..charge },
        ) == charge_units(charge),
        charge.output == 0 ==> charge_units(
            Charge { price: Price { output_per_million: price, ..charge.price }, ..charge },
        ) == charge_units(charge),
{
    lemma_nothing(price);
    lemma_nothing(charge.price.input_per_million);
    lemma_nothing(charge.price.cached_input_per_million);
    lemma_nothing(charge.price.output_per_million);
}

proof fn lemma_million(units: nat, mantissa: nat, power: nat, price: Level)
    requires
        units == crate::double::level_units(price),
        units == mantissa * vstd::arithmetic::power2::pow2(power),
        1_000_000 * mantissa <= 0x20_0000_0000_0000,
        1_000_000 * units < crate::double::infinite_units(),
    ensures
        term(1_000_000, price) == 1_000_000 * units,
        crate::double::sum(1_000_000 * units, 0) == 1_000_000 * units,
        crate::double::nearest_double(1_000_000 * units, 1_000_000 * crate::double::one()) == units,
{
    let one = crate::double::one();
    vstd::arithmetic::power2::lemma_pow2_pos(1074);
    crate::double::whole_numbers_are_exact(1_000_000);
    crate::double::doubles_are_exact(1_000_000 * mantissa, power);
    crate::double::doubles_are_exact(mantissa, power);
    assert((1_000_000 * mantissa) * vstd::arithmetic::power2::pow2(power) == 1_000_000 * units)
        by (nonlinear_arith)
        requires
            units == mantissa * vstd::arithmetic::power2::pow2(power),
    ;
    crate::double::lemma_scaled_quotient(1_000_000 * units, one, one);
    assert((1_000_000 * one) * units == (1_000_000 * units) * one) by (nonlinear_arith);
    crate::double::lemma_scaled_quotient(units, one, 1_000_000);
    assert(units * 1_000_000 == 1_000_000 * units);
    assert(one * 1_000_000 == 1_000_000 * one);
}

/// A price is the price of a million tokens: a million tokens of one kind cost just that, where the
/// product of the two is exact.
pub proof fn a_million_tokens_cost_the_price(charge: Charge, mantissa: nat, power: nat)
    requires
        ({
            let price = if charge.input > 0 {
                charge.price.input_per_million
            } else if charge.cached > 0 {
                charge.price.cached_input_per_million
            } else {
                charge.price.output_per_million
            };
            let units = crate::double::level_units(price);
            &&& units == mantissa * vstd::arithmetic::power2::pow2(power)
            &&& 1_000_000 * units < crate::double::infinite_units()
        }),
        1_000_000 * mantissa <= 0x20_0000_0000_0000,
        charge.input + charge.cached + charge.output == 1_000_000,
        charge.input == 1_000_000 || charge.cached == 1_000_000 || charge.output == 1_000_000,
    ensures
        charge_units(charge) == crate::double::level_units(
            if charge.input > 0 {
                charge.price.input_per_million
            } else if charge.cached > 0 {
                charge.price.cached_input_per_million
            } else {
                charge.price.output_per_million
            },
        ),
{
    let price = if charge.input > 0 {
        charge.price.input_per_million
    } else if charge.cached > 0 {
        charge.price.cached_input_per_million
    } else {
        charge.price.output_per_million
    };
    let units = crate::double::level_units(price);
    lemma_million(units, mantissa, power, price);
    lemma_nothing(charge.price.input_per_million);
    lemma_nothing(charge.price.cached_input_per_million);
    lemma_nothing(charge.price.output_per_million);
    vstd::arithmetic::power2::lemma_pow2_pos(2098);
    crate::double::doubles_are_exact(0, 0);
    assert(0 * vstd::arithmetic::power2::pow2(0) == 0);
    assert(crate::double::sum(0, 0) == 0);
}

/// A charge is added to the cost so far: where a number is exactly their sum, it is the cost after.
pub proof fn charge_adds_to_the_cost(cost: Level, charge: Charge, total: Level)
    requires
        crate::double::is_plain(total),
        crate::double::level_units(total) == crate::double::level_units(cost) + charge_units(charge),
        crate::double::level_units(total) < crate::double::infinite_units(),
    ensures
        with_charge(cost, charge) == total,
{
    crate::double::doubles_are_exact(
        crate::percent::mantissa(total),
        (crate::percent::scale(total) + 1074) as nat,
    );
    crate::double::level_of_its_units(total);
}

/// A charge that is too great for a number is infinite.
pub proof fn greatest_charges_are_infinite(charge: Charge)
    requires
        terms(charge) >= crate::double::infinite_units(),
    ensures
        charge_units(charge) == crate::double::infinite_units(),
{
}

} // verus!
