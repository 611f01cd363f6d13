//! Fractional numbers, held against the hardware's.
use codecrafters_redis::command::common::{get_ttl, CommandError, ExpCmd};
use codecrafters_redis::double::parse_count;
use codecrafters_redis::time::Duration;

/// What double precision makes of a text, cut to a count.
fn by_hardware(text: &str, thousandfold: bool) -> Option<u64> {
    let n: f64 = text.parse().ok()?;
    let n = if thousandfold { n * 1000f64 } else { n };
    Some(n as u64)
}

fn agree(text: &str) {
    for thousandfold in [false, true] {
        assert_eq!(
            parse_count(text.as_bytes(), thousandfold),
            by_hardware(text, thousandfold),
            "{text:?}, {thousandfold}"
        );
    }
}

/// Numbers from a simple generator, the same on every run.
struct Numbers(u64);

impl Numbers {
    fn next(&mut self, below: u64) -> u64 {
        self.0 = self
            .0
            .wrapping_mul(6364136223846793005)
            .wrapping_add(1442695040888963407);
        (self.0 >> 33) % below
    }
}

#[test]
fn exact_counts() {
    assert_eq!(parse_count(b"10", true), Some(10_000));
    assert_eq!(parse_count(b"500", false), Some(500));
    assert_eq!(parse_count(b"0.25", true), Some(250));
    // 1.001 is a little less than it says, and so is a thousand times it.
    assert_eq!(parse_count(b"1.001", true), Some(1000));
    assert_eq!(parse_count(b"4.35", true), Some(4350));
    assert_eq!(parse_count(b"-3", true), Some(0));
    assert_eq!(parse_count(b"1e3", false), Some(1000));
    assert_eq!(parse_count(b"9007199254740993", false), Some(9007199254740992));
}

#[test]
fn whole_numbers_are_exact_up_to_53_bits() {
    for n in [0u64, 1, 9, 10, 1023, 9007199254740, 9007199254739] {
        let text = n.to_string();
        assert_eq!(parse_count(text.as_bytes(), false), Some(n));
        assert_eq!(parse_count(text.as_bytes(), true), Some(1000 * n));
    }
    assert_eq!(
        parse_count(b"9007199254740991", false),
        Some(9007199254740991)
    );
}

#[test]
fn the_texts_that_are_numbers() {
    for text in [
        "0", "-0", "+0", "5", "5.", ".5", "+.5", "-.5", "5.e1", "1e0", "1E0", "1e+2", "1e-2",
        "inf", "-inf", "+inf", "INF", "Infinity", "-infinity", "nan", "NaN", "-nan", "+NAN",
        "00012", "0.0000", "000.5000", "1e400", "-1e400", "1e-400", "0e999999999999999999999999",
        "1e999999999999999999999999", "1e-999999999999999999999999",
    ] {
        assert!(by_hardware(text, false).is_some(), "{text:?}");
        agree(text);
    }
}

#[test]
fn the_texts_that_are_not() {
    for text in [
        "", "+", "-", ".", "+.", "e", "e5", "1e", "1e+", "1e1.5", "--1", "+-1", "1-", " 1", "1 ",
        "1_000", "0x10", "in", "infi", "infinityy", "na", "soon", "1e5e5", "1E5e5", "1..2", "1.2.3",
        "١",
    ] {
        assert!(by_hardware(text, false).is_none(), "{text:?}");
        agree(text);
    }
    assert_eq!(parse_count(&[49, 255], false), None);
}

#[test]
fn the_bounds_of_a_count() {
    for text in [
        "18446744073709551615", "18446744073709551616", "18446744073709550591",
        "18446744073709550592", "18446744073709550593", "18446744073709551.615",
        "18446744073709551.616", "18446744073709549.568", "99999999999999999999",
        "100000000000000000000", "1000000000000000000000", "123456789012345678901234567890",
        "0.0001", "0.00009999999999999999999999", "0.0009999999999999999999", "0.001",
        "0.00099999999999999995", "0.000999999999999999999999999999999999999",
    ] {
        agree(text);
    }
}

#[test]
fn halfway_cases_round_to_even() {
    for text in [
        "9007199254740992", "9007199254740993", "9007199254740994", "9007199254740995",
        "9007199254740993.0000000000000000000000000000000000001",
        "9007199254740992.9999999999999999999999999999999999999", "4503599627370496.5",
        "4503599627370497.5", "4503599627370497.4999999999999999999999999999999999",
        "2251799813685248.25", "2251799813685248.75",
        "1.00000000000000011102230246251565404236316680908203125",
        "1.00000000000000011102230246251565404236316680908203124",
        "1.00000000000000011102230246251565404236316680908203126",
        "1152921504606846975", "1152921504606847103", "1152921504606847104", "1152921504606847105",
    ] {
        agree(text);
    }
}

#[test]
fn many_fractions_agree_with_the_hardware() {
    let mut numbers = Numbers(42);
    for _ in 0..4000 {
        let whole = match numbers.next(4) {
            0 => 0,
            1 => numbers.next(10),
            2 => numbers.next(100_000),
            _ => numbers.next(1 << 31) * numbers.next(1 << 31),
        };
        let mut text = whole.to_string();
        let digits = numbers.next(25);
        if digits > 0 {
            text.push('.');
            for _ in 0..digits {
                text.push(char::from(b'0' + numbers.next(10) as u8));
            }
        }
        if numbers.next(3) == 0 {
            text.push_str(&format!("e{}", numbers.next(40) as i64 - 20));
        }
        agree(&text);
    }
}

#[test]
fn thousandths_agree_with_the_hardware() {
    for n in 0..5000u32 {
        agree(&format!("{}.{:03}", n / 1000, n % 1000));
    }
}

#[test]
fn a_time_to_live_may_be_a_fraction() {
    assert_eq!(
        get_ttl(&ExpCmd::Ex, Some(b"0.1".as_ref())).unwrap(),
        Some(Duration::from_millis(100))
    );
    assert_eq!(
        get_ttl(&ExpCmd::Px, Some(b"2.9".as_ref())).unwrap(),
        Some(Duration::from_millis(2))
    );
    assert!(matches!(
        get_ttl(&ExpCmd::Px, Some(b"\xff".as_ref())),
        Err(CommandError::WrongNumber(s)) if s == "\u{fffd}"
    ));
}
