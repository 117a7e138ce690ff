use hledger_get_market_prices::prices::{merge, PriceMap};
use hledger_get_market_prices::render::FormatOptions;
use hledger_get_market_prices::update::{update_ledger, PricePoint, UpdateError};

fn lines(ls: &[&str]) -> Vec<Vec<u8>> {
    ls.iter().map(|s| s.as_bytes().to_vec()).collect()
}

fn opts() -> FormatOptions {
    FormatOptions {
        stock_name: b"AAPL".to_vec(),
        currency_name: b"USD".to_vec(),
        decimal_digits: None,
        separator: b".".to_vec(),
        currency_symbol_before: false,
    }
}

fn point(date: &str, mantissa: u64, scale: usize) -> PricePoint {
    PricePoint { date: date.as_bytes().to_vec(), mantissa, scale }
}

#[test]
fn disjoint_merge_adds_the_sizes() {
    let mut file_data = PriceMap::new();
    file_data.insert(b"2024-01-01".to_vec(), b"AAPL 99 USD".to_vec());
    file_data.insert(b"2024-01-02".to_vec(), b"AAPL 100 USD".to_vec());
    let mut fetched = PriceMap::new();
    fetched.insert(b"2024-01-03".to_vec(), b"AAPL 101 USD".to_vec());
    fetched.insert(b"2024-01-04".to_vec(), b"AAPL 102 USD".to_vec());
    let merged = merge(file_data, &fetched);
    assert_eq!(merged.len(), 4);
}

#[test]
fn fetched_value_wins_for_a_shared_date() {
    let mut file_data = PriceMap::new();
    file_data.insert(b"2024-01-02".to_vec(), b"AAPL 100 USD".to_vec());
    let mut fetched = PriceMap::new();
    fetched.insert(b"2024-01-02".to_vec(), b"AAPL 107 USD".to_vec());
    let merged = merge(file_data, &fetched);
    assert_eq!(merged.len(), 1);
    let v = merged.get(&b"2024-01-02".to_vec()).unwrap();
    assert_eq!(v, &b"AAPL 107 USD".to_vec());
}

#[test]
fn round_trip_keeps_and_orders_all_directives() {
    // The rewritten file holds, after the header, exactly the union of the
    // file's and the fetched directives, newest date first.
    let file = lines(&["P 2024-01-02 AAPL 100 USD", "P 2024-01-01 AAPL 99 USD"]);
    let points = vec![point("2024-01-03", 101, 0)];
    let out = update_ledger(&file, &points, &opts(), &b"tool".to_vec(), &b"1.0".to_vec())
        .unwrap();
    assert_eq!(out.len(), 4);
    assert_eq!(out[1], b"P 2024-01-03 AAPL 101 USD".to_vec());
    assert_eq!(out[2], b"P 2024-01-02 AAPL 100 USD".to_vec());
    assert_eq!(out[3], b"P 2024-01-01 AAPL 99 USD".to_vec());
}

#[test]
fn header_names_the_tool_and_version() {
    let out = update_ledger(&lines(&[]), &[point("2024-01-03", 101, 0)].into(), &opts(),
        &b"hledger-get-market-prices".to_vec(), &b"1.2.3".to_vec())
        .unwrap();
    assert_eq!(out[0], b"; Generated by hledger-get-market-prices V1.2.3".to_vec());
}

#[test]
fn output_dates_are_strictly_descending() {
    let file = lines(&[
        "P 2024-01-05 AAPL 100 USD",
        "P 2023-12-31 AAPL 90 USD",
        "P 2024-01-03 AAPL 95 USD",
    ]);
    let points = vec![point("2024-01-04", 97, 0), point("2024-01-03", 96, 0)];
    let out = update_ledger(&file, &points, &opts(), &b"tool".to_vec(), &b"1.0".to_vec())
        .unwrap();
    let dates: Vec<&[u8]> = out[1..]
        .iter()
        .map(|l| l.split(|b| *b == b' ').nth(1).unwrap())
        .collect();
    assert_eq!(dates.len(), 4);
    for w in dates.windows(2) {
        assert!(w[1] < w[0]);
    }
    // The overlapping date holds the fetched value.
    assert!(out.contains(&b"P 2024-01-03 AAPL 96 USD".to_vec()));
    assert!(!out.contains(&b"P 2024-01-03 AAPL 95 USD".to_vec()));
}

#[test]
fn malformed_line_stops_everything() {
    let file = lines(&["GARBAGE"]);
    let points = vec![point("2024-01-03", 101, 0)];
    let r = update_ledger(&file, &points, &opts(), &b"tool".to_vec(), &b"1.0".to_vec());
    assert!(matches!(r, Err(UpdateError::Malformed(_))));
}

#[test]
fn duplicate_fetched_date_is_fatal() {
    let points = vec![point("2024-01-03", 101, 0), point("2024-01-03", 102, 0)];
    let r = update_ledger(&lines(&[]), &points, &opts(), &b"tool".to_vec(), &b"1.0".to_vec());
    match r {
        Err(UpdateError::DuplicateDate { date }) => assert_eq!(date, b"2024-01-03".to_vec()),
        _ => panic!("expected the duplicate-date error"),
    }
}

#[test]
fn formatting_options_reach_the_output() {
    let o = FormatOptions {
        stock_name: b"SIE".to_vec(),
        currency_name: b"EUR".to_vec(),
        decimal_digits: Some(2),
        separator: b",".to_vec(),
        currency_symbol_before: false,
    };
    // 179.955 rounds to 179.96, written with a comma.
    let points = vec![point("2024-02-01", 179955, 3)];
    let out = update_ledger(&lines(&[]), &points, &o, &b"tool".to_vec(), &b"1.0".to_vec())
        .unwrap();
    assert_eq!(out[1], b"P 2024-02-01 SIE 179,96 EUR".to_vec());
}
