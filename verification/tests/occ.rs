use collector::occ::parse_occ;
use collector::{Date, OptionKind};

#[test]
fn parses_put() {
    let (kind, expiry, strike) = parse_occ("SPY260930P00696000").unwrap();
    assert_eq!(kind, OptionKind::Put);
    assert_eq!(expiry, Date::from_ymd_opt(2026, 9, 30).unwrap());
    assert_eq!(strike as f64 / 1000.0, 696.0);
}

#[test]
fn parses_call_with_long_root_and_fractional_strike() {
    let (kind, expiry, strike) = parse_occ("SPXW261218C05002500").unwrap();
    assert_eq!(kind, OptionKind::Call);
    assert_eq!(expiry, Date::from_ymd_opt(2026, 12, 18).unwrap());
    assert_eq!(strike as f64 / 1000.0, 5002.5);
}

#[test]
fn rejects_garbage() {
    assert!(parse_occ("").is_none());
    assert!(parse_occ("SPY").is_none());
    assert!(parse_occ("SPY260930X00696000").is_none());
}

#[test]
fn strike_is_kept_in_exact_thousandths() {
    let (_, _, strike) = parse_occ("SPY260930P00696125").unwrap();
    assert_eq!(strike, 696_125);
    let (_, _, strike) = parse_occ("SPY260930C99999999").unwrap();
    assert_eq!(strike, 99_999_999);
}

#[test]
fn sixteen_bytes_is_the_shortest_symbol() {
    assert!(parse_occ("X260930P00696000").is_some());
    assert!(parse_occ("260930P00696000").is_none());
}

#[test]
fn root_does_not_change_the_parse() {
    assert_eq!(parse_occ("A260930P00696000"), parse_occ("SPXW260930P00696000"));
}

#[test]
fn kind_letter_must_be_upper_case() {
    assert!(parse_occ("SPY260930c00696000").is_none());
    assert!(parse_occ("SPY260930p00696000").is_none());
}

#[test]
fn strike_and_date_fields_must_be_digits() {
    assert!(parse_occ("SPY260930P0069600x").is_none());
    assert!(parse_occ("SPY2609 0P00696000").is_none());
    assert!(parse_occ("SPY26O930P00696000").is_none());
}

#[test]
fn nonexistent_days_are_rejected() {
    assert!(parse_occ("SPY260230P00696000").is_none());
    assert!(parse_occ("SPY261301C00696000").is_none());
    assert!(parse_occ("SPY260900C00696000").is_none());
    let (_, expiry, _) = parse_occ("SPY280229C00696000").unwrap();
    assert_eq!(expiry, Date::from_ymd_opt(2028, 2, 29).unwrap());
}

#[test]
fn two_digit_year_is_in_this_century() {
    let (_, expiry, _) = parse_occ("SPY990101C00000001").unwrap();
    assert_eq!(expiry.year(), 2099);
    let (_, expiry, strike) = parse_occ("SPY000101C00000000").unwrap();
    assert_eq!(expiry.year(), 2000);
    assert_eq!(strike, 0);
}

#[test]
fn formatted_symbols_parse_back() {
    for (root, kind, letter) in [("SPY", OptionKind::Call, 'C'), ("X", OptionKind::Put, 'P')] {
        for (y, m, d) in [(2000, 1, 1), (2024, 2, 29), (2099, 12, 31)] {
            for strike in [0u32, 1, 696_000, 99_999_999] {
                let sym = format!("{root}{:02}{:02}{:02}{letter}{:08}", y - 2000, m, d, strike);
                assert_eq!(parse_occ(&sym), Some((kind, Date::from_ymd_opt(y, m, d).unwrap(), strike)));
            }
        }
    }
}

#[test]
fn non_ascii_roots_are_fine_but_non_ascii_fields_are_not() {
    assert!(parse_occ("ÉTF260930P00696000").is_some());
    assert!(parse_occ("SPY26093é00696000").is_none());
}

#[test]
fn signs_points_and_words_are_not_digits() {
    // Each of these fields would satisfy `str::parse`, but an OCC field is digits only.
    assert!(parse_occ("SPY260930P+0696000").is_none());
    assert!(parse_occ("SPY260930P-0696000").is_none());
    assert!(parse_occ("SPY260930P0696.000").is_none());
    assert!(parse_occ("SPY260930Pinfinity").is_none());
    assert!(parse_occ("SPY+60930P00696000").is_none());
    assert!(parse_occ("SPY-10930P00696000").is_none());
    assert!(parse_occ("SPY26+930P00696000").is_none());
    assert!(parse_occ("SPY2609+3P00696000").is_none());
}
