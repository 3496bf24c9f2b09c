use chrono::{NaiveDate, TimeZone, Utc};
use collector::chain::{select_front_chain, ChainError, QuoteRow};
use collector::clock::UtcTime;
use collector::{Date, OptionKind};

fn at(y: i32, m: u32, d: u32, h: u32, min: u32) -> UtcTime {
    let dt = Utc.from_utc_datetime(&NaiveDate::from_ymd_opt(y, m, d).unwrap().and_hms_opt(h, min, 0).unwrap());
    UtcTime::from_timestamp(dt.timestamp(), 0).unwrap()
}

fn row(symbol: &str, usable: bool) -> QuoteRow {
    QuoteRow { symbol: symbol.to_string(), usable }
}

#[test]
fn keeps_only_the_nearest_alive_expiry() {
    let rows = vec![
        row("SPY260722C00700000", true),
        row("SPY260720P00690000", true),
        row("SPY260721C00695000", true),
        row("SPY260720C00710000", true),
        row("SPY260721P00680000", true),
    ];
    // Before the 20:00Z close on the 20th the same-day chain is the front.
    let front = select_front_chain(&rows, &at(2026, 7, 20, 15, 0)).unwrap();
    let rows_kept: Vec<usize> = front.iter().map(|c| c.row).collect();
    assert_eq!(rows_kept, vec![1, 3]);
    assert_eq!(front[0].kind, OptionKind::Put);
    assert_eq!(front[0].strike_millis, 690_000);
    assert_eq!(front[1].kind, OptionKind::Call);
    assert!(front.iter().all(|c| c.expiry == Date::from_ymd_opt(2026, 7, 20).unwrap()));

    // After the bell the 21st takes over.
    let front = select_front_chain(&rows, &at(2026, 7, 20, 20, 1)).unwrap();
    let rows_kept: Vec<usize> = front.iter().map(|c| c.row).collect();
    assert_eq!(rows_kept, vec![2, 4]);
}

#[test]
fn unusable_and_unparsable_rows_are_skipped() {
    let rows = vec![
        row("SPY260720C00700000", false),
        row("garbage", true),
        row("SPY260721C00700000", true),
    ];
    let front = select_front_chain(&rows, &at(2026, 7, 20, 15, 0)).unwrap();
    assert_eq!(front.len(), 1);
    assert_eq!(front[0].row, 2);
}

#[test]
fn no_usable_contracts_is_an_error() {
    let rows = vec![row("SPY260720C00700000", true), row("SPY260720P00700000", false)];
    assert_eq!(
        select_front_chain(&rows, &at(2026, 7, 21, 0, 0)).unwrap_err(),
        ChainError::NoUsableContracts
    );
    assert_eq!(select_front_chain(&Vec::new(), &at(2026, 7, 21, 0, 0)).unwrap_err(), ChainError::NoUsableContracts);
}
