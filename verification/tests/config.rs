use collector::config::{parse_interval_secs, parse_tickers};

#[test]
fn tickers_are_trimmed_upper_cased_and_non_empty() {
    assert_eq!(parse_tickers("SPY"), vec!["SPY".to_string()]);
    assert_eq!(parse_tickers(" spy, qqq ,,iwm,"), vec!["SPY".to_string(), "QQQ".to_string(), "IWM".to_string()]);
    assert!(parse_tickers("").is_empty());
    assert!(parse_tickers(" , ,").is_empty());
}

#[test]
fn interval_parses_or_falls_back_to_sixty() {
    assert_eq!(parse_interval_secs("60"), 60);
    assert_eq!(parse_interval_secs("15"), 15);
    assert_eq!(parse_interval_secs("+15"), 15);
    assert_eq!(parse_interval_secs(""), 60);
    assert_eq!(parse_interval_secs("-5"), 60);
    assert_eq!(parse_interval_secs(" 15"), 60);
    assert_eq!(parse_interval_secs("1.5"), 60);
    assert_eq!(parse_interval_secs("18446744073709551615"), u64::MAX);
    assert_eq!(parse_interval_secs("18446744073709551616"), 60);
}

#[test]
fn unicode_white_space_is_trimmed_too() {
    assert_eq!(parse_tickers("\u{00A0}spy\u{3000},\tqqq\n"), vec!["SPY".to_string(), "QQQ".to_string()]);
    assert!(parse_tickers("\u{2028}").is_empty());
}
