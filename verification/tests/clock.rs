use chrono::{NaiveDate, TimeZone, Utc};
use collector::clock::{alive, expiry_close_utc, seconds_to_close, UtcTime};
use collector::Date;

fn at(date: &str, hm: (u32, u32)) -> UtcTime {
    let dt = Utc.from_utc_datetime(
        &NaiveDate::parse_from_str(date, "%Y-%m-%d").unwrap().and_hms_opt(hm.0, hm.1, 0).unwrap(),
    );
    UtcTime::from_timestamp(dt.timestamp(), dt.timestamp_subsec_nanos()).unwrap()
}

fn ts(y: i32, m: u32, d: u32, h: u32) -> i64 {
    Utc.from_utc_datetime(&NaiveDate::from_ymd_opt(y, m, d).unwrap().and_hms_opt(h, 0, 0).unwrap())
        .timestamp()
}

#[test]
fn zero_dte_lives_until_the_close_and_not_a_second_longer() {
    let d = Date::from_ymd_opt(2026, 7, 20).unwrap(); // July: EDT, close 20:00Z
    assert!(alive(&d, &at("2026-07-20", (13, 30)))); // the open
    assert!(alive(&d, &at("2026-07-20", (19, 59)))); // one minute out
    assert!(!alive(&d, &at("2026-07-20", (20, 1)))); // the bell has rung
    // and the fraction is a real intraday number, not 0 or 1
    let f = seconds_to_close(&d, &at("2026-07-20", (14, 0))) as f64 / 86_400.0;
    assert!(f > 0.2 && f < 0.3, "expected ~0.25 days, got {f}");
}

#[test]
fn midnight_utc_does_not_kill_the_us_afternoon() {
    let d = Date::from_ymd_opt(2026, 7, 21).unwrap();
    assert!(alive(&d, &at("2026-07-21", (0, 30))));
    assert!(alive(&d, &at("2026-07-20", (23, 0)))); // still the prior ET day
}

#[test]
fn winter_close_is_2100_utc() {
    let d = Date::from_ymd_opt(2026, 1, 15).unwrap();
    assert!(alive(&d, &at("2026-01-15", (20, 30)))); // 15:30 ET in EST
    assert!(!alive(&d, &at("2026-01-15", (21, 1))));
}

#[test]
fn close_is_2000_utc_in_summer_and_2100_in_winter() {
    let close = expiry_close_utc(&Date::from_ymd_opt(2026, 7, 20).unwrap());
    assert_eq!((close.secs(), close.nanos()), (ts(2026, 7, 20, 20), 0));
    let close = expiry_close_utc(&Date::from_ymd_opt(2026, 1, 15).unwrap());
    assert_eq!(close.secs(), ts(2026, 1, 15, 21));
    let close = expiry_close_utc(&Date::from_ymd_opt(2026, 12, 31).unwrap());
    assert_eq!(close.secs(), ts(2026, 12, 31, 21));
}

#[test]
fn daylight_saving_switches_on_the_us_sundays() {
    // 2026: second Sunday of March is the 8th, first Sunday of November the 1st.
    let close = |y, m, d| expiry_close_utc(&Date::from_ymd_opt(y, m, d).unwrap()).secs();
    assert_eq!(close(2026, 3, 7), ts(2026, 3, 7, 21));
    assert_eq!(close(2026, 3, 8), ts(2026, 3, 8, 20));
    assert_eq!(close(2026, 10, 31), ts(2026, 10, 31, 20));
    assert_eq!(close(2026, 11, 1), ts(2026, 11, 1, 21));
    // 2025: March 9th and November 2nd.
    assert_eq!(close(2025, 3, 8), ts(2025, 3, 8, 21));
    assert_eq!(close(2025, 3, 9), ts(2025, 3, 9, 20));
    assert_eq!(close(2025, 11, 1), ts(2025, 11, 1, 20));
    assert_eq!(close(2025, 11, 2), ts(2025, 11, 2, 21));
}

#[test]
fn alive_until_the_very_close_while_whole_seconds_truncate() {
    let d = Date::from_ymd_opt(2026, 7, 20).unwrap();
    let close = ts(2026, 7, 20, 20);
    let two_before = UtcTime::from_timestamp(close - 2, 0).unwrap();
    let one_before = UtcTime::from_timestamp(close - 1, 0).unwrap();
    let half_before = UtcTime::from_timestamp(close - 1, 500_000_000).unwrap();
    let at_close = UtcTime::from_timestamp(close, 0).unwrap();
    let after = UtcTime::from_timestamp(close + 1, 250_000_000).unwrap();
    assert_eq!(seconds_to_close(&d, &two_before), 2);
    assert_eq!(seconds_to_close(&d, &one_before), 1);
    assert_eq!(seconds_to_close(&d, &half_before), 0);
    assert_eq!(seconds_to_close(&d, &at_close), 0);
    assert_eq!(seconds_to_close(&d, &after), -1);
    assert!(alive(&d, &one_before));
    assert!(alive(&d, &half_before));
    assert!(!alive(&d, &at_close));
    assert!(!alive(&d, &after));
}

#[test]
fn once_dead_a_contract_stays_dead() {
    let d = Date::from_ymd_opt(2026, 1, 15).unwrap();
    let mut was_alive = true;
    for minute in 0..(24 * 60) {
        let now = at("2026-01-15", (minute / 60, minute % 60));
        let is = alive(&d, &now);
        assert!(was_alive || !is);
        was_alive = is;
    }
    assert!(!was_alive);
}

#[test]
fn instants_reject_out_of_range_parts() {
    assert!(UtcTime::from_timestamp(0, 999_999_999).is_some());
    assert!(UtcTime::from_timestamp(0, 1_000_000_000).is_none());
    assert!(UtcTime::from_timestamp(i64::MAX, 0).is_none());
}
