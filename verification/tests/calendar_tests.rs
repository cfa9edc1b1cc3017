use createcore_updater::calendar::{format_unix_utc, is_leap_year};

#[test]
fn epoch_start() {
    assert_eq!(format_unix_utc(0), "1970-01-01 00:00:00");
}

#[test]
fn leap_days() {
    assert_eq!(format_unix_utc(951782400), "2000-02-29 00:00:00");
    assert_eq!(format_unix_utc(1709251199), "2024-02-29 23:59:59");
}

#[test]
fn ordinary_timestamp() {
    assert_eq!(format_unix_utc(1700000000), "2023-11-14 22:13:20");
}

#[test]
fn century_that_is_not_leap() {
    assert_eq!(format_unix_utc(4102444800), "2100-01-01 00:00:00");
    assert_eq!(format_unix_utc(4102444800 - 1), "2099-12-31 23:59:59");
}

#[test]
fn year_grows_past_four_digits() {
    assert_eq!(format_unix_utc(253402300799), "9999-12-31 23:59:59");
    assert_eq!(format_unix_utc(253402300800), "10000-01-01 00:00:00");
}

#[test]
fn largest_timestamp() {
    assert_eq!(format_unix_utc(u64::MAX), "584554051223-11-09 07:00:15");
}

#[test]
fn consecutive_days_are_distinct_dates() {
    let mut previous = String::new();
    for day in 0..3000u64 {
        let text = format_unix_utc(day * 86400);
        assert_ne!(text, previous);
        previous = text;
    }
}

#[test]
fn gregorian_leap_rule() {
    assert!(is_leap_year(2000));
    assert!(is_leap_year(2024));
    assert!(!is_leap_year(1900));
    assert!(!is_leap_year(2023));
    assert!(!is_leap_year(2100));
    assert!(is_leap_year(2400));
}

#[test]
fn texts_increase_with_time() {
    let stamps = [0u64, 59, 60, 3599, 3600, 86399, 86400, 951782400, 1709251199, 4102444800, 253402300799];
    for w in stamps.windows(2) {
        assert!(format_unix_utc(w[0]) < format_unix_utc(w[1]), "{} {}", w[0], w[1]);
    }
}

#[test]
fn ninety_seven_leap_years_per_four_centuries() {
    for start in [1u32, 1600, 1970, 2001, 4294967295 - 399] {
        let count = (start..=start + 399).filter(|y| is_leap_year(*y)).count();
        assert_eq!(count, 97);
    }
    for start in 1896u32..1910 {
        assert!((start..start + 4).filter(|y| is_leap_year(*y)).count() <= 1);
    }
}
