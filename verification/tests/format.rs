use hledger_get_market_prices::render::{format_price_value, FormatOptions};

fn opts(digits: Option<usize>, sep: &str, before: bool) -> FormatOptions {
    FormatOptions {
        stock_name: b"AAPL".to_vec(),
        currency_name: b"USD".to_vec(),
        decimal_digits: digits,
        separator: sep.as_bytes().to_vec(),
        currency_symbol_before: before,
    }
}

#[test]
fn natural_rendering_is_kept() {
    // 123.4, no fixed digits, point separator, currency after the amount.
    let o = opts(None, ".", false);
    assert_eq!(format_price_value(1234, 1, &o), b"AAPL 123.4 USD".to_vec());
}

#[test]
fn currency_symbol_before_amount() {
    let o = FormatOptions {
        stock_name: b"AAPL".to_vec(),
        currency_name: b"$".to_vec(),
        decimal_digits: None,
        separator: b".".to_vec(),
        currency_symbol_before: true,
    };
    assert_eq!(format_price_value(1234, 1, &o), b"AAPL $123.4".to_vec());
}

#[test]
fn integer_price_has_no_point() {
    let o = opts(None, ".", false);
    assert_eq!(format_price_value(101, 0, &o), b"AAPL 101 USD".to_vec());
}

#[test]
fn small_fraction_gets_leading_zero() {
    let o = opts(None, ".", false);
    assert_eq!(format_price_value(5, 2, &o), b"AAPL 0.05 USD".to_vec());
}

#[test]
fn fixed_digits_pad_with_zeros() {
    let o = opts(Some(3), ".", false);
    assert_eq!(format_price_value(1234, 1, &o), b"AAPL 123.400 USD".to_vec());
}

#[test]
fn fixed_digits_round_half_up() {
    // 123.456 to two digits is 123.46.
    let o = opts(Some(2), ".", false);
    assert_eq!(format_price_value(123456, 3, &o), b"AAPL 123.46 USD".to_vec());
}

#[test]
fn rounding_carries_through_the_integer_part() {
    // 99.95 to one digit is 100.0.
    let o = opts(Some(1), ".", false);
    assert_eq!(format_price_value(9995, 2, &o), b"AAPL 100.0 USD".to_vec());
}

#[test]
fn zero_digit_count_drops_the_point() {
    // 123.4 to zero digits is 123.
    let o = opts(Some(0), ".", false);
    assert_eq!(format_price_value(1234, 1, &o), b"AAPL 123 USD".to_vec());
}

#[test]
fn half_of_a_small_amount_rounds_up() {
    // 0.15 to one digit is 0.2.
    let o = opts(Some(1), ".", false);
    assert_eq!(format_price_value(15, 2, &o), b"AAPL 0.2 USD".to_vec());
}

#[test]
fn separator_substitution_replaces_the_point() {
    let o = opts(None, ",", false);
    assert_eq!(format_price_value(1234, 1, &o), b"AAPL 123,4 USD".to_vec());
}

#[test]
fn substituted_output_holds_no_point() {
    // With a separator other than `.`, no `.` remains, and the position
    // that held the point now holds the separator.
    let o = opts(Some(2), ",", false);
    let with_comma = format_price_value(123456, 3, &o);
    assert!(!with_comma.contains(&b'.'));
    let o_dot = opts(Some(2), ".", false);
    let with_dot = format_price_value(123456, 3, &o_dot);
    assert_eq!(with_comma.len(), with_dot.len());
    for (a, b) in with_dot.iter().zip(with_comma.iter()) {
        if *a == b'.' {
            assert_eq!(*b, b',');
        } else {
            assert_eq!(*a, *b);
        }
    }
}

#[test]
fn exact_digit_count_after_the_separator() {
    // A fixed count of four digits yields exactly four digits after the
    // substituted separator.
    let o = opts(Some(4), ",", false);
    let out = format_price_value(123456, 3, &o);
    let text = String::from_utf8(out).unwrap();
    let amount = text.strip_prefix("AAPL ").unwrap().strip_suffix(" USD").unwrap();
    let (_, frac) = amount.split_once(',').unwrap();
    assert_eq!(frac.len(), 4);
    assert!(frac.bytes().all(|b| b.is_ascii_digit()));
}
