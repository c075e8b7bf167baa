use stinkpot::calendar::{civil_date, CivilDate};
use stinkpot::time::{Age, Time};

#[test]
fn short_rel_time_buckets() {
    let now = Time::now_unix();
    assert_eq!(Time::relative_short(0), "never");
    assert_eq!(Time::relative_short(now), "now");
    assert_eq!(Time::relative_short(now - 5), "5s");
    assert_eq!(Time::relative_short(now - 90), "1m");
    assert_eq!(Time::relative_short(now - 10 * 60), "10m");
    assert_eq!(Time::relative_short(now - 3 * 3600), "3hrs");
    assert_eq!(Time::relative_short(now - 3 * 86_400), "3d");
    assert_eq!(Time::relative_short(now - 3 * 7 * 86_400), "3w");
    assert_eq!(Time::relative_short(now - 90 * 86_400), "3mo");
    assert_eq!(Time::relative_short(now - 400 * 86_400), "1y");
    assert_eq!(Time::relative_short(now + 60), "now"); // future timestamps clamp to 0s
}

#[test]
fn format_utc_known_epoch() {
    assert_eq!(Time::format_utc(1_700_000_000), "2023-11-14 22:13");
    assert_eq!(Time::format_utc(0), "1970-01-01 00:00");
    assert_eq!(Time::format_utc(-1), "-1");
}

#[test]
fn format_utc_edges() {
    assert_eq!(Time::format_utc(59), "1970-01-01 00:00");
    assert_eq!(Time::format_utc(60), "1970-01-01 00:01");
    assert_eq!(Time::format_utc(86_399), "1970-01-01 23:59");
    assert_eq!(Time::format_utc(86_400), "1970-01-02 00:00");
    assert_eq!(Time::format_utc(951_782_400), "2000-02-29 00:00");
    assert_eq!(Time::format_utc(951_868_800), "2000-03-01 00:00");
    assert_eq!(Time::format_utc(4_107_456_000), "2100-02-28 00:00");
    assert_eq!(Time::format_utc(4_107_542_400), "2100-03-01 00:00");
    assert_eq!(Time::format_utc(253_402_300_799), "9999-12-31 23:59");
    assert_eq!(Time::format_utc(253_402_300_800), "10000-01-01 00:00");
    assert_eq!(Time::format_utc(i64::MAX), "292277026596-12-04 15:30");
    assert_eq!(Time::format_utc(i64::MIN), "-9223372036854775808");
}

#[test]
fn texts_agree_within_a_minute_only() {
    for ts in [0i64, 1_699_999_980, 253_402_300_740] {
        assert_eq!(Time::format_utc(ts), Time::format_utc(ts + 59));
        assert_ne!(Time::format_utc(ts), Time::format_utc(ts + 60));
        assert_eq!(Time::format_utc(ts).chars().count(), 16);
    }
}

#[test]
fn civil_dates_follow_the_calendar() {
    let (mut year, mut month, mut day) = (1970i64, 1i64, 1i64);
    for number in 0..400_000i64 {
        assert_eq!(civil_date(number), CivilDate { year, month, day });
        let leap = year % 4 == 0 && (year % 100 != 0 || year % 400 == 0);
        let length = match month {
            2 => {
                if leap {
                    29
                } else {
                    28
                }
            }
            4 | 6 | 9 | 11 => 30,
            _ => 31,
        };
        day += 1;
        if day > length {
            day = 1;
            month += 1;
        }
        if month > 12 {
            month = 1;
            year += 1;
        }
    }
}

#[test]
fn relative_times_at_bucket_edges() {
    let at = |secs: i64| Time::relative_short_at(10_000_000_000, 10_000_000_000 - secs);
    let day = 86_400;
    assert_eq!(at(0), "now");
    assert_eq!(at(1), "now");
    assert_eq!(at(2), "2s");
    assert_eq!(at(59), "59s");
    assert_eq!(at(60), "1m");
    assert_eq!(at(119), "1m");
    assert_eq!(at(120), "2m");
    assert_eq!(at(3599), "59m");
    assert_eq!(at(3600), "1hr");
    assert_eq!(at(7199), "1hr");
    assert_eq!(at(7200), "2hrs");
    assert_eq!(at(day - 1), "23hrs");
    assert_eq!(at(day), "1d");
    assert_eq!(at(2 * day - 1), "1d");
    assert_eq!(at(2 * day), "2d");
    assert_eq!(at(20 * day - 1), "19d");
    assert_eq!(at(20 * day), "2w");
    assert_eq!(at(56 * day - 1), "7w");
    assert_eq!(at(56 * day), "1mo");
    assert_eq!(at(365 * day - 1), "12mo");
    assert_eq!(at(365 * day), "1y");
    assert_eq!(at(540 * day - 1), "1y");
    assert_eq!(at(540 * day), "2y");
    assert_eq!(at(730 * day - 1), "2y");
    assert_eq!(at(730 * day), "2y");
    assert_eq!(at(1095 * day), "3y");
    assert_eq!(Time::relative_short_at(0, -(i64::MAX / 2)), "a long while ago");
    assert_eq!(Time::relative_short_at(0, 1 - i64::MAX / 2), "146235604338y");
    assert_eq!(Time::relative_short_at(i64::MAX, i64::MIN), "a long while ago");
    assert_eq!(Time::relative_short_at(i64::MIN, i64::MAX), "now");
    assert_eq!(Time::relative_short_at(5, 0), "never");
}

#[test]
fn older_never_reads_as_more_recent() {
    let rank = |age: Age| match age {
        Age::Now => (0, 0),
        Age::Seconds(n) => (1, n),
        Age::Minutes(n) => (2, n),
        Age::Hours(n) => (3, n),
        Age::Days(n) => (4, n),
        Age::Weeks(n) => (5, n),
        Age::Months(n) => (6, n),
        Age::Years(n) => (7, n),
        Age::LongAgo => (8, 0),
    };
    let mut last = (0, 0);
    let mut secs = 0i64;
    while secs < 100_000_000 {
        let now = rank(Age::of(secs));
        assert!(last <= now);
        last = now;
        secs += 29;
    }
}

#[test]
fn the_clock_is_read() {
    let before = std::time::SystemTime::now()
        .duration_since(std::time::UNIX_EPOCH)
        .unwrap()
        .as_secs() as i64;
    let now = Time::now_unix();
    assert!(before <= now && now <= before + 5);
}

#[test]
fn clock_readings_as_signed_seconds() {
    assert_eq!(Time::unix_seconds(None), 0);
    assert_eq!(Time::unix_seconds(Some(0)), 0);
    assert_eq!(Time::unix_seconds(Some(1_700_000_000)), 1_700_000_000);
    assert_eq!(Time::unix_seconds(Some(u64::MAX)), -1);
    assert_eq!(Time::unix_seconds(Some(1 << 63)), i64::MIN);
}
