use crypto_ticker::format::{price_change_class, ColorClass};
use crypto_ticker::{format_number, format_volume, get_price_change_class};

fn volume_with_floats(volume: &str) -> String {
    match volume.parse::<f64>() {
        Ok(parsed) if parsed > 1_000_000.0 => format!("{:.2}M", parsed / 1_000_000.0),
        Ok(parsed) if parsed > 1_000.0 => format!("{:.2}K", parsed / 1_000.0),
        _ => volume.to_string(),
    }
}

fn number_with_floats(number: &str) -> String {
    match number.parse::<f64>() {
        Ok(parsed) => format!("{:.2}", parsed),
        Err(_) => number.to_string(),
    }
}

fn class_with_floats(change: &str) -> ColorClass {
    match change.parse::<f64>() {
        Ok(parsed) if parsed > 0.0 => ColorClass::Positive,
        Ok(parsed) if parsed < 0.0 => ColorClass::Negative,
        _ => ColorClass::Neutral,
    }
}

const SAMPLES: [&str; 64] = [
    "0", "-0", "0.0", "1", "-1", "5", "-3.2", "abc", "", "999", "999.99", "1000", "1000.0",
    "1000.0000000000001", "1000.00000000000001", "1000.01", "1001", "1500", "1004.9999", "1005",
    "1995", "999999", "999999.99", "1000000", "1000000.0000000001", "1000000.00000000001",
    "1000001", "1005000", "1015000", "1025000", "2500000", "123456789.125", "1e3", "1e6", "1e7",
    "1.5e3", "15e2", "1e21", "1e22", "1e23", "1e300", "1.7976931348623157e308", "1e309", "inf",
    "-inf", "nan", "NaN", "infinity", "-1500", "-2500000", "+1500", "1234.5", "x", "bad", "12,5",
    " 1500", "1500 ", "0.004", "0.005", "0.015", "2.675", "1234.565", "99.995", "1e-7",
];

#[test]
fn change_of_five_is_positive() {
    assert_eq!(price_change_class("5"), ColorClass::Positive);
    assert_eq!(get_price_change_class("5"), "text-green-500");
}

#[test]
fn change_of_minus_three_point_two_is_negative() {
    assert_eq!(price_change_class("-3.2"), ColorClass::Negative);
    assert_eq!(get_price_change_class("-3.2"), "text-red-500");
}

#[test]
fn change_of_zero_is_neutral() {
    assert_eq!(price_change_class("0"), ColorClass::Neutral);
    assert_eq!(price_change_class("-0"), ColorClass::Neutral);
    assert_eq!(price_change_class("0.000"), ColorClass::Neutral);
    assert_eq!(get_price_change_class("0"), "text-gray-400");
}

#[test]
fn change_that_is_no_number_is_neutral() {
    assert_eq!(price_change_class("abc"), ColorClass::Neutral);
    assert_eq!(price_change_class(""), ColorClass::Neutral);
    assert_eq!(price_change_class("nan"), ColorClass::Neutral);
    assert_eq!(get_price_change_class("abc"), "text-gray-400");
}

#[test]
fn change_follows_the_sign_of_the_rounded_number() {
    assert_eq!(price_change_class("inf"), ColorClass::Positive);
    assert_eq!(price_change_class("-inf"), ColorClass::Negative);
    assert_eq!(price_change_class("5e-324"), ColorClass::Positive);
    assert_eq!(price_change_class("-5e-324"), ColorClass::Negative);
    // Too small for any binary64 number but zero.
    assert_eq!(price_change_class("1e-400"), ColorClass::Neutral);
    assert_eq!(price_change_class("-1e-400"), ColorClass::Neutral);
    for sample in SAMPLES {
        assert_eq!(price_change_class(sample), class_with_floats(sample), "{sample:?}");
    }
}

#[test]
fn style_classes() {
    assert_eq!(ColorClass::Positive.css_class(), "text-green-500");
    assert_eq!(ColorClass::Negative.css_class(), "text-red-500");
    assert_eq!(ColorClass::Neutral.css_class(), "text-gray-400");
}

#[test]
fn volume_in_millions() {
    assert_eq!(format_volume("2500000"), "2.50M");
    assert_eq!(format_volume("1000001"), "1.00M");
    assert_eq!(format_volume("123456789.125"), "123.46M");
}

#[test]
fn volume_in_thousands() {
    assert_eq!(format_volume("1500"), "1.50K");
    assert_eq!(format_volume("1000000"), "1000.00K");
    assert_eq!(format_volume("999999.99"), "1000.00K");
}

#[test]
fn volume_up_to_a_thousand_is_left_as_it_came() {
    assert_eq!(format_volume("999"), "999");
    assert_eq!(format_volume("1000"), "1000");
    assert_eq!(format_volume("1000.0"), "1000.0");
    assert_eq!(format_volume("1e3"), "1e3");
    assert_eq!(format_volume("0.5"), "0.5");
    assert_eq!(format_volume("-2500000"), "-2500000");
    assert_eq!(format_volume("+999"), "+999");
}

#[test]
fn volume_that_is_no_number_is_left_as_it_came() {
    assert_eq!(format_volume("bad"), "bad");
    assert_eq!(format_volume(""), "");
    assert_eq!(format_volume("1 500"), "1 500");
    assert_eq!(format_volume("nan"), "nan");
}

#[test]
fn volume_thresholds_are_those_of_the_rounded_number() {
    // The nearest binary64 number to this text is exactly 1000.
    assert_eq!(format_volume("1000.00000000000001"), "1000.00000000000001");
    assert_eq!(format_volume("1000.0000000000001"), "1.00K");
    assert_eq!(format_volume("1000000.00000000001"), "1000.00K");
    assert_eq!(format_volume("1000000.0000000001"), "1.00M");
    assert_eq!(format_volume("inf"), "infM");
    assert_eq!(format_volume("1e309"), "infM");
}

#[test]
fn volume_agrees_with_floats() {
    for sample in SAMPLES {
        assert_eq!(format_volume(sample), volume_with_floats(sample), "{sample:?}");
    }
}

#[test]
fn number_with_two_places() {
    assert_eq!(format_number("1234.5"), "1234.50");
    assert_eq!(format_number("0"), "0.00");
    assert_eq!(format_number("7"), "7.00");
    assert_eq!(format_number("-3.2"), "-3.20");
    assert_eq!(format_number("1e3"), "1000.00");
    assert_eq!(format_number("+.5"), "0.50");
}

#[test]
fn number_that_is_no_number_is_left_as_it_came() {
    assert_eq!(format_number("x"), "x");
    assert_eq!(format_number(""), "");
    assert_eq!(format_number("12,5"), "12,5");
}

#[test]
fn number_is_rounded_from_the_binary_value() {
    // 2.675 and 0.015 have no exact binary64 form; the nearest lies below.
    assert_eq!(format_number("2.675"), "2.67");
    assert_eq!(format_number("0.015"), "0.01");
    // 0.125 and 0.375 are exact: the tie goes to the even digit.
    assert_eq!(format_number("0.125"), "0.12");
    assert_eq!(format_number("0.375"), "0.38");
    assert_eq!(format_number("-0.001"), "-0.00");
    assert_eq!(format_number("-0"), "-0.00");
    assert_eq!(format_number("inf"), "inf");
    assert_eq!(format_number("-Infinity"), "-inf");
    assert_eq!(format_number("nan"), "NaN");
    assert_eq!(format_number("1e23"), "99999999999999991611392.00");
}

#[test]
fn number_agrees_with_floats() {
    for sample in SAMPLES {
        assert_eq!(format_number(sample), number_with_floats(sample), "{sample:?}");
    }
}

/// A small generator of digits, the same on every run.
struct Digits(u64);

impl Digits {
    fn next(&mut self, bound: u64) -> u64 {
        self.0 = self.0.wrapping_mul(6364136223846793005).wrapping_add(1442695040888963407);
        (self.0 >> 33) % bound
    }

    fn literal(&mut self) -> String {
        let mut text = String::new();
        if self.next(4) == 0 {
            text.push('-');
        }
        let whole = self.next(12);
        for _ in 0..whole {
            text.push(char::from(b'0' + self.next(10) as u8));
        }
        let fraction = self.next(10);
        if fraction > 0 || whole == 0 {
            text.push('.');
            for _ in 0..fraction.max(1) {
                text.push(char::from(b'0' + self.next(10) as u8));
            }
        }
        if self.next(5) == 0 {
            text.push('e');
            if self.next(2) == 0 {
                text.push('-');
            }
            text.push_str(&self.next(25).to_string());
        }
        text
    }
}

#[test]
fn formats_agree_with_floats_on_generated_literals() {
    let mut digits = Digits(2024);
    for _ in 0..1500 {
        let text = digits.literal();
        assert_eq!(format_number(&text), number_with_floats(&text), "{text:?}");
        assert_eq!(format_volume(&text), volume_with_floats(&text), "{text:?}");
        assert_eq!(price_change_class(&text), class_with_floats(&text), "{text:?}");
    }
}
