use server_core::datetime::{
    check_date, civil_from_days, datestamp_for, days_in_month, days_in_year, timestamp_for,
};

#[test]
fn test_civil_from_days_epoch() {
    assert_eq!((1970, 1, 1), civil_from_days(0));
    assert_eq!((1970, 1, 2), civil_from_days(1));
    assert_eq!((1970, 12, 31), civil_from_days(364));
    assert_eq!((1971, 1, 1), civil_from_days(365));
}

#[test]
fn test_civil_from_days_leap_years() {
    // 1972 is the first leap year after the epoch
    assert_eq!((1972, 2, 29), civil_from_days(365 + 365 + 31 + 28));
    assert_eq!((1972, 3, 1), civil_from_days(365 + 365 + 31 + 29));
    // 2000 was a leap year, 1900 was not and 2100 will not be
    assert_eq!(366, days_in_year(2000));
    assert_eq!(366, days_in_year(2020));
    assert_eq!(365, days_in_year(1900));
    assert_eq!(365, days_in_year(2100));
    assert_eq!(29, days_in_month(2020, 2));
    assert_eq!(28, days_in_month(2019, 2));
    assert_eq!(31, days_in_month(2020, 7));
    assert_eq!(30, days_in_month(2020, 9));
}

#[test]
fn test_datestamp_rendering() {
    // 2020-08-01 00:00:00 UTC
    assert_eq!(b"2020_08_01".to_vec(), datestamp_for(1596240000));
    // 2020-02-29 00:00:00 UTC
    assert_eq!(b"2020_02_29".to_vec(), datestamp_for(1582934400));
    assert_eq!(b"1970_01_01".to_vec(), datestamp_for(0));
    // one second before midnight still belongs to the old day
    assert_eq!(b"2020_07_31".to_vec(), datestamp_for(1596240000 - 1));
}

#[test]
fn test_timestamp_rendering() {
    assert_eq!(b"[1970-01-01 00:00:00]".to_vec(), timestamp_for(0));
    assert_eq!(b"[2020-08-01 00:00:00]".to_vec(), timestamp_for(1596240000));
    assert_eq!(b"[2020-08-01 01:01:01]".to_vec(), timestamp_for(1596240000 + 3661));
    assert_eq!(b"[2020-07-31 23:59:59]".to_vec(), timestamp_for(1596240000 - 1));
}

#[test]
fn test_check_date() {
    assert!(check_date(b"2020_08_01"));
    assert!(check_date(b"2020_02_29"));
    assert!(check_date(b"9999_12_31"));
    assert!(!check_date(b"2019_02_29"));
    assert!(!check_date(b"2020_13_01"));
    assert!(!check_date(b"2020_00_01"));
    assert!(!check_date(b"2020_01_00"));
    assert!(!check_date(b"2020_01_32"));
    assert!(!check_date(b"2020-08-01"));
    assert!(!check_date(b"0999_01_01"));
    assert!(!check_date(b"20200801"));
    assert!(!check_date(b""));
    assert!(!check_date(b"2020_08_011"));
}
