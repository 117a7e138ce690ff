use hledger_get_market_prices::ledger::{parse_ledger, ParseError};

fn lines(ls: &[&str]) -> Vec<Vec<u8>> {
    ls.iter().map(|s| s.as_bytes().to_vec()).collect()
}

#[test]
fn parses_a_price_directive() {
    let m = parse_ledger(&lines(&["P 2024-01-02 AAPL 100 USD"])).unwrap();
    assert_eq!(m.len(), 1);
    let v = m.get(&b"2024-01-02".to_vec()).unwrap();
    assert_eq!(v, &b"AAPL 100 USD".to_vec());
}

#[test]
fn comment_lines_are_passed_over() {
    let m = parse_ledger(&lines(&["; a comment", "P 2024-01-02 AAPL 100 USD"])).unwrap();
    assert_eq!(m.len(), 1);
}

#[test]
fn leading_whitespace_is_trimmed() {
    let m = parse_ledger(&lines(&["  \tP 2024-01-02 AAPL 100 USD", "   ; indented comment"]))
        .unwrap();
    assert_eq!(m.len(), 1);
    assert!(m.get(&b"2024-01-02".to_vec()).is_some());
}

#[test]
fn garbage_line_is_a_fatal_parse_error() {
    // A non-comment line with no space stops the parse; nothing is kept.
    let r = parse_ledger(&lines(&["P 2024-01-02 AAPL 100 USD", "GARBAGE"]));
    match r {
        Err(ParseError::NoSpace { line }) => assert_eq!(line, b"GARBAGE".to_vec()),
        _ => panic!("expected the no-space error"),
    }
}

#[test]
fn empty_line_is_a_no_space_error() {
    let r = parse_ledger(&lines(&[""]));
    match r {
        Err(ParseError::NoSpace { line }) => assert_eq!(line, Vec::<u8>::new()),
        _ => panic!("expected the no-space error"),
    }
}

#[test]
fn non_price_directive_is_fatal() {
    let r = parse_ledger(&lines(&["X 2024-01-02 AAPL 100 USD"]));
    match r {
        Err(ParseError::NotAPrice { line }) => {
            assert_eq!(line, b"X 2024-01-02 AAPL 100 USD".to_vec())
        },
        _ => panic!("expected the not-a-price error"),
    }
}

#[test]
fn directive_with_one_space_is_fatal() {
    let r = parse_ledger(&lines(&["P 2024-01-02"]));
    match r {
        Err(ParseError::OnlySpace { line }) => assert_eq!(line, b"P 2024-01-02".to_vec()),
        _ => panic!("expected the only-one-space error"),
    }
}

#[test]
fn error_carries_the_trimmed_line() {
    let r = parse_ledger(&lines(&["   GARBAGE"]));
    match r {
        Err(ParseError::NoSpace { line }) => assert_eq!(line, b"GARBAGE".to_vec()),
        _ => panic!("expected the no-space error"),
    }
}

#[test]
fn later_file_line_wins_for_a_repeated_date() {
    // The reader's own dedup policy: last write wins, silently.
    let m = parse_ledger(&lines(&[
        "P 2024-01-02 AAPL 100 USD",
        "P 2024-01-02 AAPL 105 USD",
    ]))
    .unwrap();
    assert_eq!(m.len(), 1);
    let v = m.get(&b"2024-01-02".to_vec()).unwrap();
    assert_eq!(v, &b"AAPL 105 USD".to_vec());
}
