use teamcodex::config::Price;
use teamcodex::cost::add_charge;
use teamcodex::cost::Charge;
use teamcodex::double::decimal;
use teamcodex::double::ratio;
use teamcodex::double::thousandth;
use teamcodex::double::Double;
use teamcodex::duration::duration_seconds;
use teamcodex::headers::Header;
use teamcodex::level::Level;
use teamcodex::number::parse_number;
use teamcodex::percent::fixed;
use teamcodex::quota::api_headers;

fn level(value: f64) -> Level {
    Level { bits: value.to_bits() }
}

fn number(double: Double) -> f64 {
    f64::from_bits(double.level().bits)
}

fn double(value: f64) -> Double {
    Double::of(level(value))
}

/// Numbers that follow each other without a pattern.
struct Dice {
    state: u64,
}

impl Dice {
    fn roll(&mut self) -> u64 {
        self.state ^= self.state << 13;
        self.state ^= self.state >> 7;
        self.state ^= self.state << 17;
        self.state
    }

    /// A number of any magnitude, among them the smallest and the greatest.
    fn number(&mut self) -> f64 {
        let bits = self.roll() >> 1;
        match self.roll() % 8 {
            0 => f64::from_bits(bits % 0x10_0000_0000_0000),
            1 => (bits % 1000) as f64,
            2 => (bits % 100_000) as f64 / 100.0,
            3 => f64::from_bits(0x3ff0_0000_0000_0000 + bits % 0x10_0000_0000_0000),
            4 => f64::from_bits(0x7fe0_0000_0000_0000 + bits % 0x10_0000_0000_0000),
            _ => f64::from_bits(bits % 0x7ff0_0000_0000_0000),
        }
    }
}

#[test]
fn sums_and_products_are_those_of_doubles() {
    let mut dice = Dice { state: 0x1234_5678_9abc_def1 };
    for _ in 0..20_000 {
        let (a, b) = (dice.number(), dice.number());
        assert_eq!(number(double(a).plus(double(b))), a + b, "{a:e} + {b:e}");
        assert_eq!(number(double(a).times(double(b))), a * b, "{a:e} * {b:e}");
        assert_eq!(number(double(a).over(1_000_000)), a / 1_000_000.0, "{a:e}");
        assert_eq!(number(double(a)), a);
    }
    assert_eq!(number(Double::zero()), 0.0);
    assert_eq!(number(thousandth()), 0.001);
    assert_eq!(number(double(f64::MAX).plus(double(f64::MAX))), f64::INFINITY);
}

#[test]
fn quotients_are_those_of_doubles() {
    let mut dice = Dice { state: 0x0fed_cba9_8765_4321 };
    for _ in 0..20_000 {
        let (a, b) = (dice.number(), dice.number());
        let (a, b) = if a <= b { (a, b) } else { (b, a) };
        if b > 0.0 {
            let quotient = ratio(level(a), level(b));
            assert_eq!(number(quotient), a / b, "{a:e} / {b:e}");
            assert_eq!(number(quotient.from_one()), 1.0 - a / b, "1 - {a:e} / {b:e}");
        }
    }
}

#[test]
fn whole_and_decimal_numbers_are_rounded() {
    let mut dice = Dice { state: 0x2545_f491_4f6c_dd1d };
    for _ in 0..5_000 {
        let count = dice.roll() >> (dice.roll() % 64);
        assert_eq!(number(Double::whole(count)), count as f64);
        let whole = (dice.roll() >> 11) >> (dice.roll() % 53);
        let length = dice.roll() % 30;
        let mut digits = Vec::new();
        for _ in 0..length {
            digits.push((dice.roll() % 10) as u8);
        }
        let mut text = format!("{whole}.");
        for digit in digits.iter().rev() {
            text.push(char::from(b'0' + digit));
        }
        assert_eq!(number(decimal(whole, digits)), text.parse::<f64>().unwrap(), "{text}");
    }
    assert_eq!(number(decimal(0, vec![0; 400])), 0.0);
    let mut tiny = vec![0; 330];
    tiny[0] = 9;
    assert_eq!(number(decimal(0, tiny)), 0.0);
    let mut least = vec![0; 324];
    least[0] = 5;
    assert_eq!(number(decimal(0, least)), f64::from_bits(1));
}

/// Adds a duration up in doubles.
fn seconds(mut text: &str) -> Option<u64> {
    let mut total = 0.0;
    while !text.is_empty() {
        let end = text.find(|c: char| !c.is_ascii_digit() && c != '.')?;
        let amount: f64 = text[..end].parse().ok()?;
        text = &text[end..];
        let units = [("ms", 0.001), ("d", 86400.0), ("h", 3600.0), ("m", 60.0), ("s", 1.0)];
        let (unit, each) = units.into_iter().find(|(unit, _)| text.starts_with(unit))?;
        total += amount * each;
        if total > 31_536_000.0 {
            return None;
        }
        text = &text[unit.len()..];
    }
    Some(total.ceil() as u64)
}

#[test]
fn durations_are_added_up_in_doubles() {
    assert_eq!(duration_seconds("0.07h"), Some(253));
    assert_eq!(duration_seconds("365d"), Some(31_536_000));
    assert_eq!(duration_seconds("365d1ms"), None);
    assert_eq!(duration_seconds("99999999999999999999s"), None);
    assert_eq!(duration_seconds("1.2.3s"), None);
    assert_eq!(duration_seconds(".s"), None);
    assert_eq!(duration_seconds(".5s"), Some(1));
    assert_eq!(duration_seconds("5.s"), Some(5));
    let mut dice = Dice { state: 0x9e37_79b9_7f4a_7c15 };
    for _ in 0..5_000 {
        let mut text = String::new();
        for _ in 0..1 + dice.roll() % 3 {
            text.push_str(&format!("{}", dice.roll() % 100_000));
            if dice.roll() % 2 == 0 {
                text.push_str(&format!(".{:03}", dice.roll() % 1000));
            }
            text.push_str(["ms", "s", "m", "h", "d"][(dice.roll() % 5) as usize]);
        }
        assert_eq!(duration_seconds(&text), seconds(&text), "{text}");
    }
}

#[test]
fn the_share_of_an_api_limit_is_worked_out_in_doubles() {
    let mut dice = Dice { state: 0xd1b5_4a32_d192_ed03 };
    for _ in 0..300 {
        let limit = dice.number();
        let remaining = if dice.roll() % 4 == 0 { dice.number() } else { limit / 7.0 };
        let header = |name: &str, value: f64| Header {
            name: name.to_string(),
            text: Some(format!("{value:e}")),
        };
        let headers = vec![
            header("x-ratelimit-limit-tokens", limit),
            header("x-ratelimit-remaining-tokens", remaining),
        ];
        let quotas = api_headers(&headers, "m", 0);
        if limit > 0.0 {
            let used = (1.0 - remaining.min(limit) / limit) * 100.0;
            let found = quotas.get("api:m:tokens").unwrap().used_percent;
            assert_eq!(f64::from_bits(found.bits), used, "{remaining:e} of {limit:e}");
        } else {
            assert_eq!(quotas.len(), 0);
        }
    }
}

#[test]
fn costs_are_added_up_in_doubles() {
    let mut dice = Dice { state: 0x94d0_49bb_1331_11eb };
    let mut cost = 0.0;
    for round in 0..5_000 {
        let prices = [dice.number(), dice.number(), dice.number()];
        let prices = prices.map(|price| if round % 3 == 0 { price } else { price % 100.0 });
        let (input, cached, output) = (dice.roll() >> 40, dice.roll() >> 44, dice.roll() >> 30);
        let charge = Charge {
            price: Price {
                input_per_million: level(prices[0]),
                cached_input_per_million: level(prices[1]),
                output_per_million: level(prices[2]),
            },
            input,
            cached,
            output,
        };
        let amount = (input as f64 * prices[0] + cached as f64 * prices[1]
            + output as f64 * prices[2])
            / 1_000_000.0;
        let total = add_charge(level(cost), charge);
        assert_eq!(f64::from_bits(total.bits), cost + amount);
        cost = if round % 2 == 0 && amount.is_finite() { amount } else { 0.25 };
    }
    let free = Price {
        input_per_million: level(0.0),
        cached_input_per_million: level(0.0),
        output_per_million: level(0.0),
    };
    let charge = Charge { price: free, input: 5, cached: 6, output: 7 };
    assert_eq!(add_charge(level(f64::INFINITY), charge), level(f64::INFINITY));
}

#[test]
fn four_digits_follow_the_point() {
    for value in [0.0, 1.25, 0.00005, 0.00015, 12.34565, 0.99995, 1e15, 1e300, 5e-324, 123456.78905] {
        assert_eq!(fixed(level(value)), format!("{value:.4}"));
        assert_eq!(fixed(level(-value)), format!("{:.4}", -value));
    }
    assert_eq!(fixed(level(f64::INFINITY)), "inf");
    assert_eq!(fixed(level(f64::NAN)), "NaN");
    let mut dice = Dice { state: 0xbf58_476d_1ce4_e5b9 };
    for _ in 0..5_000 {
        let value = dice.number();
        assert_eq!(fixed(level(value)), format!("{value:.4}"));
    }
}

/// A text as a finite number of the standard library.
fn finite(text: &str) -> Option<u64> {
    text.parse::<f64>().ok().filter(|number| number.is_finite()).map(f64::to_bits)
}

#[test]
fn texts_are_read_as_doubles() {
    let texts = [
        "0", "-0", "+0", "1", "+1", "-1", "12.5", "12.", ".5", "-.5", "+.5", ".", "", "+", "-", "e5",
        ".e5", "1e", "1e+", "1e-", "1e5", "1E5", "1e+5", "1e-5", "-1.5e-3", "1e5e5", "1.5.5", "1_0",
        " 1", "1 ", "0x10", "nan", "NaN", "inf", "-inf", "infinity", "--1", "+-1", "1e--5", "1,5",
        "1e308", "1.7976931348623157e308", "1.7976931348623158e308", "1.797693134862315807e308",
        "1.7976931348623159e308", "1e309", "-1e309", "1e400", "1e99999999999999999999999999999999",
        "4.9e-324", "5e-324", "2.5e-324", "2.4703282292062327e-324", "2.4703282292062328e-324",
        "2.2250738585072011e-308", "2.2250738585072014e-308", "1e-400", "-1e-400", "1e-1000",
        "1e-99999999999999999999999999999999", "0e99999999999999999999999999999999",
        "0.000000000000000000000000000000000000000000001e50", "9007199254740993",
        "9007199254740992.5", "9007199254740993.00000000000000000000000000000001",
        "1267650600228229401496703205376", "1267650600228229401496703205377",
        "123456789012345678901234567890123456789012345678901234567890", "0000000000000000000000001",
        "3.14159265358979323846264338327950288419716939937510582097494459", "1e00000000000000000003",
        "179769313486231570000000000000000000000e270", "100000000000000000000000e-23",
    ];
    for text in texts {
        assert_eq!(parse_number(text).map(|number| number.bits), finite(text), "{text}");
    }
    let long = format!("{}.{}", "7".repeat(300), "3".repeat(300));
    assert_eq!(parse_number(&long).map(|number| number.bits), finite(&long));
    let small = format!("0.{}1", "0".repeat(320));
    assert_eq!(parse_number(&small).map(|number| number.bits), finite(&small));
}

#[test]
fn any_number_is_read_as_a_double() {
    let mut dice = Dice { state: 0x5851_f42d_4c95_7f2d };
    for _ in 0..1_000 {
        let number = dice.number();
        let text = format!("{number:e}");
        assert_eq!(parse_number(&text), Some(level(number)), "{text}");
        let whole = dice.roll() >> (dice.roll() % 60);
        let power = (dice.roll() % 80) as i64 - 40;
        let text = format!("-{whole}.{}e{power}", dice.roll() % 1_000_000);
        assert_eq!(parse_number(&text).map(|number| number.bits), finite(&text), "{text}");
    }
}
