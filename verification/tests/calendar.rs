use runner::calendar::{
    civil_time, format_date_time, get_date_time_string, get_days_for_year, get_days_per_month,
    is_leap_year, push_padded, DateTime,
};

#[test]
fn leap_years_follow_the_gregorian_rule() {
    assert!(is_leap_year(2000));
    assert!(is_leap_year(2024));
    assert!(is_leap_year(1972));
    assert!(!is_leap_year(1900));
    assert!(!is_leap_year(2100));
    assert!(!is_leap_year(2023));
    assert!(is_leap_year(0));
    assert!(is_leap_year(-4));
    assert!(!is_leap_year(-1));
    assert!(!is_leap_year(-100));
    assert!(is_leap_year(-400));
}

#[test]
fn years_have_365_or_366_days() {
    assert_eq!(get_days_for_year(2023), 365);
    assert_eq!(get_days_for_year(2024), 366);
    assert_eq!(get_days_for_year(1900), 365);
    assert_eq!(get_days_for_year(2000), 366);
}

#[test]
fn months_have_their_days() {
    assert_eq!(get_days_per_month(2023), vec![31, 28, 31, 30, 31, 30, 31, 31, 30, 31, 30, 31]);
    assert_eq!(get_days_per_month(2024), vec![31, 29, 31, 30, 31, 30, 31, 31, 30, 31, 30, 31]);
}

#[test]
fn the_count_starts_in_1970() {
    assert_eq!(
        civil_time(0),
        DateTime { year: 1970, month: 1, day: 1, hour: 0, minute: 0, second: 0 }
    );
    assert_eq!(get_date_time_string(0), "1970-01-01 00:00:00");
    assert_eq!(get_date_time_string(86399), "1970-01-01 23:59:59");
    assert_eq!(get_date_time_string(86400), "1970-01-02 00:00:00");
}

#[test]
fn dates_are_told_from_seconds() {
    assert_eq!(get_date_time_string(951782400), "2000-02-29 00:00:00");
    assert_eq!(get_date_time_string(951868799), "2000-02-29 23:59:59");
    assert_eq!(get_date_time_string(951868800), "2000-03-01 00:00:00");
    assert_eq!(get_date_time_string(1700000000), "2023-11-14 22:13:20");
    assert_eq!(get_date_time_string(1735689599), "2024-12-31 23:59:59");
    assert_eq!(get_date_time_string(1735689600), "2025-01-01 00:00:00");
    assert_eq!(get_date_time_string(4102444800), "2100-01-01 00:00:00");
    assert_eq!(get_date_time_string(253402300800), "10000-01-01 00:00:00");
}

#[test]
fn numbers_are_padded_with_zeros() {
    let mut out = String::from("x");
    push_padded(&mut out, 7, 2);
    push_padded(&mut out, 0, 1);
    push_padded(&mut out, 0, 0);
    push_padded(&mut out, 123, 2);
    push_padded(&mut out, 45, 4);
    assert_eq!(out, "x07001230045");
    let mut big = String::new();
    push_padded(&mut big, u64::MAX, 3);
    assert_eq!(big, "18446744073709551615");
}

#[test]
fn a_date_is_written_with_fixed_widths() {
    let time = DateTime { year: 987, month: 6, day: 5, hour: 4, minute: 3, second: 2 };
    assert_eq!(format_date_time(&time), "0987-06-05 04:03:02");
}
