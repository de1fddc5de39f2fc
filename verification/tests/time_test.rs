use ls_rs::time::Time;

#[test]
fn time_epoch_format_test() {
    let t = Time::new(0, 0);
    assert_eq!(t.to_calendar_date(), (1970, 1, 1));
    assert_eq!(t.to_time_parts(), (0, 0, 0));
    assert_eq!(t.format(), "Jan  1 00:00");
}

#[test]
fn time_known_instant_test() {
    // 2023-11-14T22:13:20Z
    let t = Time::new(1700000000, 0);
    assert_eq!(t.to_calendar_date(), (2023, 11, 14));
    assert_eq!(t.to_time_parts(), (22, 13, 20));
    assert_eq!(t.format(), "Nov 14 22:13");
    assert_eq!(t.to_rfc3339(), "2023-11-14T22:13:20+00:00");
}

#[test]
fn time_leap_day_test() {
    // 2000-02-29T00:00:00Z: a century year divisible by 400 leaps
    let t = Time::new(951782400, 0);
    assert_eq!(t.to_calendar_date(), (2000, 2, 29));
    assert!(Time::is_leap_year(2000));
    assert!(!Time::is_leap_year(1900));
    assert!(Time::is_leap_year(2024));
    assert!(!Time::is_leap_year(2023));
    assert_eq!(Time::get_days_in_year(2000), 366);
    assert_eq!(Time::get_days_in_month(2, 2000), 29);
    assert_eq!(Time::get_days_in_month(2, 1999), 28);
    assert_eq!(Time::get_days_in_month(4, 1999), 30);
    assert_eq!(Time::get_days_in_month(12, 1999), 31);
}

#[test]
fn time_offset_shifts_clock_test() {
    // one hour east of UTC moves the local clock forward
    let t = Time::new(0, 3600);
    assert_eq!(t.to_calendar_date(), (1970, 1, 1));
    assert_eq!(t.to_time_parts(), (1, 0, 0));
    assert_eq!(t.to_rfc3339(), "1970-01-01T01:00:00+01:00");
}

#[test]
fn time_negative_offset_walks_back_test() {
    // one hour west of the epoch lands on the last hour of 1969
    let t = Time::new(0, -3600);
    assert_eq!(t.to_calendar_date(), (1969, 12, 31));
    assert_eq!(t.to_time_parts(), (23, 0, 0));
    assert_eq!(t.to_rfc3339(), "1969-12-31T23:00:00-01:00");
    assert_eq!(t.format(), "Dec 31 23:00");
}

#[test]
fn time_clamping_test() {
    // out-of-range inputs are clamped rather than rejected
    let t = Time::new(u64::MAX, 900000);
    assert_eq!(t.secs(), 253402300799);
    assert_eq!(t.offset(), 86400);
    let t2 = Time::new(5, -900000);
    assert_eq!(t2.secs(), 5);
    assert_eq!(t2.offset(), -86400);
}

#[test]
fn time_order_test() {
    let a = Time::new(10, 0);
    let b = Time::new(20, 0);
    assert!(a.le(&b));
    assert!(!b.le(&a));
    let c = Time::new(10, -60);
    assert!(c.le(&a));
}
