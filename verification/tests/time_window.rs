use chrono::{Datelike, Days, NaiveDate, TimeZone, Utc};
use rastraq::time::{days_in_month, previous_day, previous_local_date, published_on, CalendarDate, TimeError, Zone};

fn date(year: i32, month: u32, day: u32) -> CalendarDate {
    CalendarDate { year, month, day }
}

#[test]
fn previous_local_date_uses_user_timezone() {
    let now_utc = Utc.with_ymd_and_hms(2026, 4, 24, 14, 30, 0).unwrap();

    let target = previous_local_date(now_utc.timestamp(), "Asia/Tokyo").unwrap();

    assert_eq!(target.to_string(), "2026-04-23");
}

#[test]
fn previous_local_date_follows_the_zone_not_utc() {
    // 2026-04-24T01:00:00Z is already 10:00 on the 24th in Tokyo, but still
    // the 23rd in New York.
    let now = Utc.with_ymd_and_hms(2026, 4, 24, 1, 0, 0).unwrap().timestamp();
    assert_eq!(previous_local_date(now, "Asia/Tokyo").unwrap(), date(2026, 4, 23));
    assert_eq!(previous_local_date(now, "America/New_York").unwrap(), date(2026, 4, 22));
    assert_eq!(previous_local_date(now, "UTC").unwrap(), date(2026, 4, 23));
}

#[test]
fn previous_local_date_rejects_unknown_zone() {
    let now = Utc.with_ymd_and_hms(2026, 4, 24, 1, 0, 0).unwrap().timestamp();
    match previous_local_date(now, "Mars/Olympus") {
        Err(TimeError::InvalidTimezone(name)) => assert_eq!(name, "Mars/Olympus"),
        other => panic!("unexpected {:?}", other),
    }
    let err = previous_local_date(now, "asia/tokyo").unwrap_err();
    assert_eq!(err.message(), "invalid timezone: asia/tokyo");
    assert_eq!(TimeError::NoPreviousDate.message(), "could not calculate previous local date");
}

#[test]
fn previous_local_date_crosses_year_in_zone() {
    // 2026-01-01T00:30 in Tokyo is still 2025-12-31 in UTC.
    let now = Utc.with_ymd_and_hms(2025, 12, 31, 15, 30, 0).unwrap().timestamp();
    assert_eq!(previous_local_date(now, "Asia/Tokyo").unwrap(), date(2025, 12, 31));
    assert_eq!(previous_local_date(now, "UTC").unwrap(), date(2025, 12, 30));
}

#[test]
fn previous_day_handles_month_and_year_ends() {
    assert_eq!(previous_day(date(2026, 4, 24)), Some(date(2026, 4, 23)));
    assert_eq!(previous_day(date(2026, 3, 1)), Some(date(2026, 2, 28)));
    assert_eq!(previous_day(date(2024, 3, 1)), Some(date(2024, 2, 29)));
    assert_eq!(previous_day(date(2000, 3, 1)), Some(date(2000, 2, 29)));
    assert_eq!(previous_day(date(1900, 3, 1)), Some(date(1900, 2, 28)));
    assert_eq!(previous_day(date(2026, 5, 1)), Some(date(2026, 4, 30)));
    assert_eq!(previous_day(date(2026, 1, 1)), Some(date(2025, 12, 31)));
    assert_eq!(previous_day(date(-262143, 1, 1)), None);
    assert_eq!(previous_day(date(-262142, 1, 1)), Some(date(-262143, 12, 31)));
}

#[test]
fn previous_day_agrees_with_chrono() {
    let mut day = NaiveDate::from_ymd_opt(1999, 12, 25).unwrap();
    for _ in 0..1200 {
        let ours = previous_day(date(day.year(), day.month(), day.day())).unwrap();
        let theirs = day.checked_sub_days(Days::new(1)).unwrap();
        assert_eq!(ours, date(theirs.year(), theirs.month(), theirs.day()));
        day = day.checked_add_days(Days::new(1)).unwrap();
    }
    let first = NaiveDate::MIN;
    assert_eq!(first.checked_sub_days(Days::new(1)), None);
    assert_eq!(previous_day(date(first.year(), first.month(), first.day())), None);
}

#[test]
fn days_in_month_counts_leap_years() {
    assert_eq!(days_in_month(2024, 2), 29);
    assert_eq!(days_in_month(2023, 2), 28);
    assert_eq!(days_in_month(2100, 2), 28);
    assert_eq!(days_in_month(2000, 2), 29);
    assert_eq!(days_in_month(-4, 2), 29);
    assert_eq!(days_in_month(-100, 2), 28);
    assert_eq!(days_in_month(2026, 4), 30);
    assert_eq!(days_in_month(2026, 12), 31);
}

#[test]
fn calendar_date_renders_like_chrono() {
    assert_eq!(date(2026, 4, 3).to_string(), "2026-04-03");
    assert_eq!(date(987, 12, 31).to_string(), "0987-12-31");
    assert_eq!(date(-1, 1, 1).to_string(), "-0001-01-01");
    assert_eq!(date(10000, 1, 1).to_string(), "+10000-01-01");
    for (y, m, d) in [(2026, 4, 3), (987, 12, 31), (-1, 1, 1), (10000, 1, 1), (-262143, 1, 1), (0, 2, 29)] {
        let chrono_text = NaiveDate::from_ymd_opt(y, m, d).unwrap().to_string();
        assert_eq!(date(y, m, d).to_string(), chrono_text);
    }
}

#[test]
fn published_on_keeps_instants_of_the_local_day() {
    let zone = Zone::parse("Asia/Tokyo").unwrap();
    assert_eq!(zone.name(), "Asia/Tokyo");
    assert!(Zone::parse("Not/AZone").is_none());
    let published = vec![
        Utc.with_ymd_and_hms(2026, 4, 23, 3, 0, 0).unwrap().timestamp(),
        Utc.with_ymd_and_hms(2026, 4, 23, 16, 0, 0).unwrap().timestamp(),
        Utc.with_ymd_and_hms(2026, 4, 22, 14, 59, 59).unwrap().timestamp(),
        Utc.with_ymd_and_hms(2026, 4, 22, 15, 0, 0).unwrap().timestamp(),
    ];
    assert_eq!(published_on(&zone, &published, date(2026, 4, 23)), vec![0, 3]);
    assert_eq!(published_on(&zone, &published, date(2026, 4, 24)), vec![1]);
    assert_eq!(published_on(&zone, &published, date(2026, 4, 22)), vec![2]);
}

#[test]
fn previous_local_date_at_chrono_limits_does_not_panic() {
    let last = NaiveDate::MAX.and_hms_opt(23, 59, 59).unwrap().and_utc().timestamp();
    assert!(matches!(previous_local_date(last, "Asia/Tokyo"), Err(TimeError::NoPreviousDate)));
    assert_eq!(previous_local_date(last, "UTC").unwrap(), date(262142, 12, 30));
    let first = NaiveDate::MIN.and_hms_opt(0, 0, 0).unwrap().and_utc().timestamp();
    assert!(matches!(previous_local_date(first, "America/New_York"), Err(TimeError::NoPreviousDate)));
    assert!(matches!(previous_local_date(first, "UTC"), Err(TimeError::NoPreviousDate)));
    assert!(matches!(previous_local_date(i64::MAX, "UTC"), Err(TimeError::NoPreviousDate)));
    let zone = Zone::parse("Asia/Tokyo").unwrap();
    assert!(published_on(&zone, &vec![last, i64::MIN], date(262142, 12, 31)).is_empty());
}
