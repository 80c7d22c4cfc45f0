use date_arith::count::days_between_dates;
use date_arith::date::Date;

#[test]
fn test_days_between_dates() {
    assert_eq!(
        days_between_dates(Date::new(2013, 1, 1), Date::new(2014, 1, 1)),
        365
    );
    assert_eq!(
        days_between_dates(Date::new(2012, 1, 1), Date::new(2013, 1, 1)),
        366
    );
    assert_eq!(
        days_between_dates(Date::new(2012, 9, 1), Date::new(2012, 9, 4)),
        3
    );
    assert_eq!(
        days_between_dates(Date::new(2011, 6, 30), Date::new(2012, 6, 30)),
        366
    );
    assert_eq!(
        days_between_dates(Date::new(2011, 1, 1), Date::new(2012, 8, 8)),
        585
    );
}

#[test]
fn test_is_leap_year() {
    assert!(Date::new(2012, 1, 1).is_leap_year());
    assert!(Date::new(2000, 1, 1).is_leap_year());
    assert!(!Date::new(1900, 1, 1).is_leap_year());
    assert!(!Date::new(2013, 1, 1).is_leap_year());
}

#[test]
fn leap_year_century_rule() {
    assert!(Date::new(2400, 1, 1).is_leap_year());
    assert!(!Date::new(2100, 1, 1).is_leap_year());
}

#[test]
fn leap_year_negative_years() {
    assert!(Date::new(-4, 1, 1).is_leap_year());
    assert!(Date::new(0, 1, 1).is_leap_year());
    assert!(!Date::new(-100, 1, 1).is_leap_year());
    assert!(Date::new(-400, 1, 1).is_leap_year());
    assert!(!Date::new(-3, 1, 1).is_leap_year());
}

#[test]
fn days_in_month_lengths() {
    assert_eq!(Date::new(2012, 2, 1).days_in_month(), 29);
    assert_eq!(Date::new(2013, 2, 1).days_in_month(), 28);
    assert_eq!(Date::new(2013, 4, 1).days_in_month(), 30);
    assert_eq!(Date::new(2013, 6, 1).days_in_month(), 30);
    assert_eq!(Date::new(2013, 9, 1).days_in_month(), 30);
    assert_eq!(Date::new(2013, 11, 1).days_in_month(), 30);
    assert_eq!(Date::new(2013, 1, 1).days_in_month(), 31);
    assert_eq!(Date::new(2013, 12, 1).days_in_month(), 31);
}

#[test]
fn next_day_within_month() {
    assert_eq!(Date::new(2023, 10, 6).next_day(), Date::new(2023, 10, 7));
}

#[test]
fn next_day_rolls_month() {
    assert_eq!(Date::new(2023, 9, 30).next_day(), Date::new(2023, 10, 1));
    assert_eq!(Date::new(2012, 2, 29).next_day(), Date::new(2012, 3, 1));
    assert_eq!(Date::new(2013, 2, 28).next_day(), Date::new(2013, 3, 1));
}

#[test]
fn next_day_rolls_year() {
    assert_eq!(Date::new(2023, 12, 31).next_day(), Date::new(2024, 1, 1));
}

#[test]
fn is_before_ordering() {
    let earlier = Date::new(2023, 10, 6);
    let later = Date::new(2023, 10, 10);
    assert!(earlier.is_before(&later));
    assert!(!later.is_before(&earlier));
    assert!(!earlier.is_before(&earlier));
    assert!(Date::new(2022, 12, 31).is_before(&Date::new(2023, 1, 1)));
    assert!(Date::new(2023, 9, 30).is_before(&Date::new(2023, 10, 1)));
}

#[test]
fn printed_scenario_span() {
    assert_eq!(
        days_between_dates(Date::new(2023, 10, 6), Date::new(2023, 10, 10)),
        4
    );
}

#[test]
fn same_date_counts_zero() {
    assert_eq!(
        days_between_dates(Date::new(2023, 10, 6), Date::new(2023, 10, 6)),
        0
    );
    assert_eq!(days_between_dates(Date::new(2012, 2, 29), Date::new(2012, 2, 29)), 0);
}

#[test]
fn reversed_order_counts_zero() {
    assert_eq!(
        days_between_dates(Date::new(2023, 10, 10), Date::new(2023, 10, 6)),
        0
    );
    assert_eq!(
        days_between_dates(Date::new(2014, 1, 1), Date::new(2013, 1, 1)),
        0
    );
}

#[test]
fn advancing_end_adds_one_day() {
    let start = Date::new(2023, 10, 6);
    let end = Date::new(2023, 12, 31);
    let base = days_between_dates(start, end);
    assert_eq!(days_between_dates(start, end.next_day()), base + 1);
}

#[test]
fn span_across_year_zero() {
    assert_eq!(days_between_dates(Date::new(0, 1, 1), Date::new(1, 1, 1)), 366);
}
