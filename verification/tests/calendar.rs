use collector::calendar::days_to_expiry;
use collector::Date;

#[test]
fn from_ymd_checks_the_calendar() {
    assert!(Date::from_ymd_opt(2024, 2, 29).is_some());
    assert!(Date::from_ymd_opt(2026, 2, 29).is_none());
    assert!(Date::from_ymd_opt(2000, 2, 29).is_some());
    assert!(Date::from_ymd_opt(1900, 2, 29).is_none());
    assert!(Date::from_ymd_opt(2026, 4, 31).is_none());
    assert!(Date::from_ymd_opt(2026, 0, 1).is_none());
    assert!(Date::from_ymd_opt(2026, 13, 1).is_none());
    assert!(Date::from_ymd_opt(2026, 1, 0).is_none());
    assert!(Date::from_ymd_opt(400000, 1, 1).is_none());
    let d = Date::from_ymd_opt(2026, 7, 20).unwrap();
    assert_eq!((d.year(), d.month(), d.day()), (2026, 7, 20));
}

#[test]
fn dates_order_chronologically() {
    let a = Date::from_ymd_opt(2026, 7, 20).unwrap();
    let b = Date::from_ymd_opt(2026, 7, 21).unwrap();
    let c = Date::from_ymd_opt(2027, 1, 1).unwrap();
    assert!(a.is_before(&b) && b.is_before(&c) && a.is_before(&c));
    assert!(!b.is_before(&a) && !a.is_before(&a));
    assert!(a.same_day(&Date::from_ymd_opt(2026, 7, 20).unwrap()));
}

#[test]
fn days_to_expiry_counts_whole_days_and_floors_at_zero() {
    let today = Date::from_ymd_opt(2026, 7, 20).unwrap();
    assert_eq!(days_to_expiry(&today, &today), 0);
    assert_eq!(days_to_expiry(&Date::from_ymd_opt(2026, 7, 21).unwrap(), &today), 1);
    assert_eq!(days_to_expiry(&Date::from_ymd_opt(2026, 8, 3).unwrap(), &today), 14);
    assert_eq!(days_to_expiry(&Date::from_ymd_opt(2027, 7, 20).unwrap(), &today), 365);
    assert_eq!(days_to_expiry(&Date::from_ymd_opt(2026, 7, 1).unwrap(), &today), 0);
}
