//! Texts of numbers, and the numbers that a machine holds.

use infotheory::limbs::{natural_of, Natural};
use infotheory::machine_numbers::{hold, hold_again, shortest_digits};
use infotheory::reals::{
    check_real, percent_in_range, show_narrowed, show_nonnegative, show_percent, show_real,
};

fn chars(text: &str) -> Vec<char> {
    text.chars().collect()
}

fn shown(text: &str, double: bool) -> String {
    show_real(&chars(text), double).into_iter().collect()
}

fn assert_shown(text: &str) {
    let wide: f64 = text.parse().expect("a number");
    assert_eq!(shown(text, true), wide.to_string(), "{text} in eight bytes");
    let narrow: f32 = text.parse().expect("a number");
    assert_eq!(shown(text, false), narrow.to_string(), "{text} in four bytes");
    let again: String = show_narrowed(&chars(text)).into_iter().collect();
    assert_eq!(again, (wide as f32).to_string(), "{text} by way of eight bytes");
}

#[test]
fn digits_that_a_machine_cannot_hold_are_rounded() {
    assert_eq!(shown("0.123456789123", false), "0.12345679");
    assert_eq!(shown("0.123456789123", true), "0.123456789123");
    assert_eq!(shown("0.1234567891234567891234", true), "0.12345678912345678");
    assert_eq!(shown("16777217", false), "16777216");
    assert_eq!(shown("9007199254740993", true), "9007199254740992");
    assert_eq!(shown("-0.3000000000000000000001e1", true), "-3");
    assert_eq!(shown("3.4028236e38", false), "inf");
    assert_eq!(shown("1e-46", false), "0");
}

#[test]
fn numbers_are_shown_as_the_machine_shows_them() {
    for text in [
        "0", "-0.0", "1", "0.1", "0.3", "2.5", "100", "1e22", "1e23", "8.5e22", "123456789",
        "4.9e-324", "5e-324", "2.4703282292062327e-324", "2.4703282292062328e-324", "7.4e-324",
        "2.2250738585072011e-308", "2.2250738585072014e-308", "1.7976931348623157e308",
        "1.7976931348623158e308", "1.7976931348623159e308", "1e309", "1e310", "1e400", "-1e400",
        "1.1754942e-38", "1.1754944e-38", "1e-45", "7e-46", "7.1e-46", "3.4028235e38",
        "3.40282346638528859811704183484516925e38", "3.4028235677973366e38", "33554431", "33554435",
        "9007199254740991", "9007199254740993", "18014398509481985", "0.000001", "999999.95",
        "9999999999999999.5", "1.00000005960464477539062", "1.000000059604644775390625",
        "1.00000005960464477539063", "1.00000017881393432617187", "1.000000178813934326171875",
        "1.00000017881393432617188", "+7.", ".7", "00012.50", "1E5", "inf", "-Infinity", "NaN",
        "1e99999999999999999999", "0e99999999999999999999", "1e-99999999999999999999",
    ] {
        assert_shown(text);
    }
}

#[test]
fn numbers_with_any_bits_are_shown_as_the_machine_shows_them() {
    let mut bits: u64 = 0x9E37_79B9_7F4A_7C15;
    for round in 0..200u32 {
        bits = bits.wrapping_mul(6364136223846793005).wrapping_add(1442695040888963407);
        let wide = f64::from_bits(bits);
        if wide.is_finite() {
            assert_shown(&wide.to_string());
            assert_shown(&format!("{wide:.25e}"));
            assert_shown(&format!("{:.40e}", wide * 0.5));
        }
        let narrow = f32::from_bits((bits >> 32) as u32);
        if narrow.is_finite() {
            assert_shown(&narrow.to_string());
            assert_shown(&format!("{:.30e}", f64::from(narrow) * 1.0000001));
        }
        let near = 1.0 + f64::from(round) / 7.0;
        assert_shown(&near.to_string());
        assert_shown(&format!("{near:.30}"));
    }
}

#[test]
fn halves_go_to_the_even_neighbour() {
    for exponent in [-20i32, -3, 0, 5, 24, 40] {
        let unit = 2f64.powi(exponent);
        for odd in [1.0f64, 3.0, 5.0, 8388607.0] {
            let half = (16777216.0 + odd) * unit;
            assert_shown(&format!("{half:.60}"));
        }
    }
}

#[test]
fn what_is_held_is_found_again() {
    assert_eq!(hold(&chars("1"), 1, false), Some((8388608, 126)));
    assert_eq!(hold(&chars("1"), 1, true), Some((4503599627370496, 1022)));
    assert_eq!(hold(&[], 0, true), Some((0, 0)));
    assert_eq!(hold(&chars("4"), 39, false), None);
    assert_eq!(hold(&chars("14"), -44, false), Some((1, 0)));
    let tenth = hold(&chars("1"), 0, true).expect("a number");
    let narrow = hold_again(tenth, true, false).expect("a number");
    assert_eq!(hold(&chars("1"), 0, false), Some(narrow));
    assert_eq!(shortest_digits(tenth, true), Some((chars("1"), 0)));
    assert_eq!(shortest_digits((1, 0), true), Some((chars("5"), -323)));
    assert_eq!(shortest_digits((1, 0), false), Some((chars("1"), -44)));
}

#[test]
fn shown_numbers_are_kept() {
    for text in ["0.1234567890123456789", "99.99999999999999999", "1e-310", "77.7"] {
        let once = shown(text, true);
        assert_eq!(shown(&once, true), once);
        let percent: String = show_percent(&chars(text)).into_iter().collect();
        assert!(check_real(&chars(&percent)));
        assert!(percent_in_range(&chars(&percent)));
        let narrow: String = show_nonnegative(&chars(text)).into_iter().collect();
        let twice: String = show_nonnegative(&chars(&narrow)).into_iter().collect();
        assert_eq!(twice, narrow);
    }
    assert!(percent_in_range(&chars("-1e-324")));
    assert!(!percent_in_range(&chars("-5e-324")));
}

#[test]
fn numbers_without_a_bound() {
    let mut product = natural_of(&chars("340282366920938463463374607431768211456"));
    product.grow(10, 7);
    let mut power = Natural::new(1);
    power.scale(2, 128);
    assert_eq!(product.quotient(&power, 11), 10);
    assert!(power.is_below(&product));
    assert!(!product.is_below(&power));
    assert!(!power.is_below(&power.duplicate()));
}
