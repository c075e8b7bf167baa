//! Unix time: reading the clock, and showing timestamps to people.

use vstd::prelude::*;

use crate::calendar;
use crate::calendar::{civil_date, CivilDate};
use crate::number;

verus! {

/// A moment on the system clock.
#[verifier::external_type_specification]
#[verifier::external_body]
pub struct ExSystemTime(std::time::SystemTime);

/// The error that tells that one moment comes before another.
#[verifier::external_type_specification]
#[verifier::external_body]
pub struct ExSystemTimeError(std::time::SystemTimeError);

/// `SystemTime::now` reads the system clock; nothing is promised of what it shows.
pub assume_specification[ std::time::SystemTime::now ]() -> (now: std::time::SystemTime)
;

/// `Duration::as_secs` counts the whole seconds of a span of time; spans are opaque here, so
/// nothing is promised of the count.
pub assume_specification[ std::time::Duration::as_secs ](span: &std::time::Duration) -> (secs: u64)
;

/// `SystemTime::duration_since`, called with the Unix epoch: the time from the epoch to `moment`,
/// or an error for a moment before it. Moments are opaque here, so which of the two comes is
/// left open.
#[verifier::external_body]
fn since_epoch(moment: &std::time::SystemTime) -> (elapsed: Result<
    std::time::Duration,
    std::time::SystemTimeError,
>) {
    moment.duration_since(std::time::UNIX_EPOCH)
}

/// The seconds of a day
pub const DAY: i64 = 86_400;

/// How long ago something was, rounded down to one unit of time.
#[derive(Clone, Copy, Debug, PartialEq, Eq, Structural)]
pub enum Age {
    /// At most a second
    Now,
    /// Seconds, from two
    Seconds(i64),
    /// Minutes
    Minutes(i64),
    /// Hours
    Hours(i64),
    /// Days
    Days(i64),
    /// Weeks of seven days
    Weeks(i64),
    /// Months of thirty days
    Months(i64),
    /// Years of 365 days; from eighteen months on, two
    Years(i64),
    /// Longer than anyone remembers
    LongAgo,
}

/// The age of something that is `secs` seconds old.
pub open spec fn age_of(secs: int) -> Age {
    if secs <= 1 {
        Age::Now
    } else if secs < 60 {
        Age::Seconds(secs as i64)
    } else if secs < 3600 {
        Age::Minutes((secs / 60) as i64)
    } else if secs < DAY {
        Age::Hours((secs / 3600) as i64)
    } else if secs < 20 * DAY {
        Age::Days((secs / DAY as int) as i64)
    } else if secs < 56 * DAY {
        Age::Weeks((secs / (7 * DAY)) as i64)
    } else if secs < 365 * DAY {
        Age::Months((secs / (30 * DAY)) as i64)
    } else if secs < 540 * DAY {
        Age::Years(1)
    } else if secs < 730 * DAY {
        Age::Years(2)
    } else if secs < i64::MAX / 2 {
        Age::Years((secs / (365 * DAY)) as i64)
    } else {
        Age::LongAgo
    }
}

impl Age {
    /// The age of something that is `secs` seconds old.
    pub fn of(secs: i64) -> (age: Age)
        requires
            secs >= 0,
        ensures
            age == age_of(secs as int),
    {
        if secs <= 1 {
            Age::Now
        } else if secs < 60 {
            Age::Seconds(secs)
        } else if secs < 3600 {
            Age::Minutes(secs / 60)
        } else if secs < DAY {
            Age::Hours(secs / 3600)
        } else if secs < 20 * DAY {
            Age::Days(secs / DAY)
        } else if secs < 8 * 7 * DAY {
            Age::Weeks(secs / (7 * DAY))
        } else if secs < 365 * DAY {
            Age::Months(secs / (30 * DAY))
        } else if secs < 18 * 30 * DAY {
            Age::Years(1)
        } else if secs < 2 * 365 * DAY {
            Age::Years(2)
        } else if secs < i64::MAX / 2 {
            Age::Years(secs / (365 * DAY))
        } else {
            Age::LongAgo
        }
    }

    /// The age in words as short as can be: `3m`, `2d`, `1hr`, `5hrs`.
    pub open spec fn words(self) -> Seq<char> {
        match self {
            Age::Now => "now"@,
            Age::Seconds(n) => number::signed_decimal(n as int) + "s"@,
            Age::Minutes(n) => number::signed_decimal(n as int) + "m"@,
            Age::Hours(n) => number::signed_decimal(n as int) + if n == 1 {
                "hr"@
            } else {
                "hrs"@
            },
            Age::Days(n) => number::signed_decimal(n as int) + "d"@,
            Age::Weeks(n) => number::signed_decimal(n as int) + "w"@,
            Age::Months(n) => number::signed_decimal(n as int) + "mo"@,
            Age::Years(n) => number::signed_decimal(n as int) + "y"@,
            Age::LongAgo => "a long while ago"@,
        }
    }

    /// The age in words as short as can be.
    pub fn label(self) -> (s: String)
        ensures
            s@ == self.words(),
    {
        match self {
            Age::Now => "now".to_string(),
            Age::Seconds(n) => number::to_signed_decimal(n).concat("s"),
            Age::Minutes(n) => number::to_signed_decimal(n).concat("m"),
            Age::Hours(n) => number::to_signed_decimal(n).concat(
                if n == 1 {
                    "hr"
                } else {
                    "hrs"
                },
            ),
            Age::Days(n) => number::to_signed_decimal(n).concat("d"),
            Age::Weeks(n) => number::to_signed_decimal(n).concat("w"),
            Age::Months(n) => number::to_signed_decimal(n).concat("mo"),
            Age::Years(n) => number::to_signed_decimal(n).concat("y"),
            Age::LongAgo => "a long while ago".to_string(),
        }
    }

    /// The units from the shortest on.
    pub open spec fn unit_rank(self) -> int {
        match self {
            Age::Now => 0,
            Age::Seconds(_) => 1,
            Age::Minutes(_) => 2,
            Age::Hours(_) => 3,
            Age::Days(_) => 4,
            Age::Weeks(_) => 5,
            Age::Months(_) => 6,
            Age::Years(_) => 7,
            Age::LongAgo => 8,
        }
    }

    /// How many of the unit; 0 where there is no number.
    pub open spec fn count(self) -> int {
        match self {
            Age::Now => 0,
            Age::Seconds(n) => n as int,
            Age::Minutes(n) => n as int,
            Age::Hours(n) => n as int,
            Age::Days(n) => n as int,
            Age::Weeks(n) => n as int,
            Age::Months(n) => n as int,
            Age::Years(n) => n as int,
            Age::LongAgo => 0,
        }
    }

    /// The age shows something at most as old as another age does.
    pub open spec fn at_most(self, other: Age) -> bool {
        ||| self.unit_rank() < other.unit_rank()
        ||| self.unit_rank() == other.unit_rank() && self.count() <= other.count()
    }
}

/// What is older never shows as more recent.
pub proof fn lemma_ages_in_order(younger: int, older: int)
    requires
        younger <= older <= i64::MAX,
    ensures
        age_of(younger).at_most(age_of(older)),
{
}

/// A number that an age shows is positive.
pub proof fn lemma_age_counts_are_positive(secs: int)
    requires
        secs <= i64::MAX,
    ensures
        age_of(secs) is Now || age_of(secs) is LongAgo || age_of(secs).count() >= 1,
{
}

/// How many seconds before `now` the moment `ts` lies: 0 for the future, and at most `i64::MAX`.
pub open spec fn seconds_ago(now: i64, ts: i64) -> int {
    if now <= ts {
        0
    } else if now - ts > i64::MAX {
        i64::MAX as int
    } else {
        now - ts
    }
}

/// What a timestamp reads as at the moment `now`; 0 stands for no time at all.
pub open spec fn relative_text(now: i64, ts: i64) -> Seq<char> {
    if ts == 0 {
        "never"@
    } else {
        age_of(seconds_ago(now, ts)).words()
    }
}

/// Of two timestamps the earlier one never shows as more recent.
pub proof fn lemma_earlier_reads_as_older(now: i64, earlier: i64, later: i64)
    requires
        earlier <= later,
    ensures
        age_of(seconds_ago(now, later)).at_most(age_of(seconds_ago(now, earlier))),
{
    lemma_ages_in_order(seconds_ago(now, later), seconds_ago(now, earlier));
}

/// Timestamps in the future read as now.
pub proof fn lemma_future_reads_as_now(now: i64, ts: i64)
    requires
        now <= ts,
        ts != 0,
    ensures
        relative_text(now, ts) == "now"@,
{
}

/// Date, hour and minute in the form `YYYY-MM-DD HH:MM`.
pub open spec fn utc_layout(date: CivilDate, hour: nat, minute: nat) -> Seq<char> {
    number::zero_padded(date.year as nat, 4) + "-"@ + number::zero_padded(date.month as nat, 2)
        + "-"@ + number::zero_padded(date.day as nat, 2) + " "@ + number::zero_padded(hour, 2)
        + ":"@ + number::zero_padded(minute, 2)
}

/// Writes date, hour and minute in the form `YYYY-MM-DD HH:MM`.
fn write_utc(date: CivilDate, hour: u64, minute: u64) -> (s: String)
    requires
        date.valid(),
    ensures
        s@ == utc_layout(date, hour as nat, minute as nat),
{
    let mut s = number::to_zero_padded(date.year as u64, 4);
    s.append("-");
    s.append(number::to_zero_padded(date.month as u64, 2).as_str());
    s.append("-");
    s.append(number::to_zero_padded(date.day as u64, 2).as_str());
    s.append(" ");
    s.append(number::to_zero_padded(hour, 2).as_str());
    s.append(":");
    s.append(number::to_zero_padded(minute, 2).as_str());
    s
}

/// `s` shows the timestamp `ts`: its UTC date, hour and minute, or, before the epoch, its number.
pub open spec fn shows_utc(s: Seq<char>, ts: i64) -> bool {
    if ts < 0 {
        s == number::signed_decimal(ts as int)
    } else {
        exists|date: CivilDate| #[trigger] shows_date(s, ts, date)
    }
}

/// `s` shows the timestamp `ts`, which falls on `date`, with its UTC hour and minute.
pub open spec fn shows_date(s: Seq<char>, ts: i64, date: CivilDate) -> bool {
    &&& date.valid()
    &&& date.day_number() == ts as int / 86_400
    &&& s == utc_layout(date, hour_of(ts), minute_of(ts))
}

/// The UTC hour of a timestamp.
pub open spec fn hour_of(ts: i64) -> nat {
    (ts as int % 86_400 / 3600) as nat
}

/// The minute of a timestamp within its hour.
pub open spec fn minute_of(ts: i64) -> nat {
    (ts as int % 3600 / 60) as nat
}

/// Days, hours and minutes make up the minutes since the epoch.
proof fn lemma_minutes(ts: i64)
    requires
        0 <= ts,
    ensures
        ts as int / 60 == (ts as int / 86_400) * 1440 + hour_of(ts) * 60 + minute_of(ts),
        hour_of(ts) < 24,
        minute_of(ts) < 60,
{
    let days = ts as int / 86_400;
    let rest = ts as int % 86_400;
    assert(ts == 86_400 * days + rest);
    lemma_hours(days, rest);
}

proof fn lemma_hours(days: int, rest: int)
    requires
        0 <= days,
        0 <= rest < 86_400,
    ensures
        (86_400 * days + rest) / 60 == days * 1440 + rest / 3600 * 60 + rest % 3600 / 60,
        (86_400 * days + rest) % 3600 == rest % 3600,
{
    let hours = rest / 3600;
    let left = rest % 3600;
    assert(rest == 3600 * hours + left);
    assert(86_400 * days + rest == 60 * (1440 * days + 60 * hours) + left);
}

/// What the parts of a layout are, read back from the text.
proof fn lemma_layout_reads_back(date: CivilDate, hour: nat, minute: nat)
    requires
        date.valid(),
        hour < 100,
        minute < 100,
    ensures
        ({
            let s = utc_layout(date, hour, minute);
            let n = s.len() - 12;
            &&& n >= 4
            &&& date.year < 10_000 ==> n == 4
            &&& date.year == number::digits_value(s.subrange(0, n))
            &&& date.month == number::digits_value(s.subrange(n + 1, n + 3))
            &&& date.day == number::digits_value(s.subrange(n + 4, n + 6))
            &&& hour == number::digits_value(s.subrange(n + 7, n + 9))
            &&& minute == number::digits_value(s.subrange(n + 10, n + 12))
        }),
{
    reveal_strlit("-");
    reveal_strlit(" ");
    reveal_strlit(":");
    let s = utc_layout(date, hour, minute);
    let year_part = number::zero_padded(date.year as nat, 4);
    let month_part = number::zero_padded(date.month as nat, 2);
    let day_part = number::zero_padded(date.day as nat, 2);
    let hour_part = number::zero_padded(hour, 2);
    let minute_part = number::zero_padded(minute, 2);
    number::lemma_zero_padded_reads_back(date.year as nat, 4);
    number::lemma_zero_padded_reads_back(date.month as nat, 2);
    number::lemma_zero_padded_reads_back(date.day as nat, 2);
    number::lemma_zero_padded_reads_back(hour, 2);
    number::lemma_zero_padded_reads_back(minute, 2);
    let n = s.len() - 12;
    assert(s.subrange(0, n) =~= year_part);
    assert(s.subrange(n + 1, n + 3) =~= month_part);
    assert(s.subrange(n + 4, n + 6) =~= day_part);
    assert(s.subrange(n + 7, n + 9) =~= hour_part);
    assert(s.subrange(n + 10, n + 12) =~= minute_part);
}

/// Two timestamps from the epoch on read alike exactly if they fall in the same minute.
pub proof fn lemma_utc_text_tells_the_minute(a: i64, a_text: Seq<char>, b: i64, b_text: Seq<char>)
    requires
        0 <= a,
        0 <= b,
        shows_utc(a_text, a),
        shows_utc(b_text, b),
    ensures
        a_text == b_text <==> a as int / 60 == b as int / 60,
{
    let a_date = choose|date: CivilDate| #[trigger] shows_date(a_text, a, date);
    let b_date = choose|date: CivilDate| #[trigger] shows_date(b_text, b, date);
    lemma_minutes(a);
    lemma_minutes(b);
    lemma_layout_reads_back(a_date, hour_of(a), minute_of(a));
    lemma_layout_reads_back(b_date, hour_of(b), minute_of(b));
    if a as int / 60 == b as int / 60 {
        calendar::lemma_day_number_is_unique(a_date, b_date);
    }
}

/// Before the year 10000 the text has sixteen characters.
pub proof fn lemma_utc_text_has_sixteen_characters(ts: i64, s: Seq<char>)
    requires
        0 <= ts < 253_402_300_800,
        shows_utc(s, ts),
    ensures
        s.len() == 16,
{
    let date = choose|date: CivilDate| #[trigger] shows_date(s, ts, date);
    lemma_minutes(ts);
    let last = CivilDate { year: 9999, month: 12, day: 31 };
    assert(date.year <= 9999) by {
        calendar::lemma_last_four_digit_day();
        if date.year > 9999 {
            calendar::lemma_day_numbers_in_order(last, date);
        }
    }
    lemma_layout_reads_back(date, hour_of(ts), minute_of(ts));
}

/// The seconds on the clock as a signed number: `secs` modulo 2^64, or 0 where there are none.
pub open spec fn unix_time(secs: Option<u64>) -> int {
    match secs {
        Some(s) => if s <= i64::MAX {
            s as int
        } else {
            s - 0x1_0000_0000_0000_0000
        },
        None => 0,
    }
}

/// A moment lies `secs` whole seconds past the epoch, or, where there are none, before it.
pub closed spec fn past_epoch(moment: std::time::SystemTime, secs: Option<u64>) -> bool {
    exists|elapsed: Result<std::time::Duration, std::time::SystemTimeError>|
        {
            &&& #[trigger] call_ensures(since_epoch, (&moment,), elapsed)
            &&& match (elapsed, secs) {
                (Ok(span), Some(s)) => call_ensures(std::time::Duration::as_secs, (&span,), s),
                (Err(_), None) => true,
                _ => false,
            }
        }
}

/// `now` is the Unix time of a moment that the system clock showed: the whole seconds since the
/// epoch, or 0 for a moment before it.
pub open spec fn clock_shows(now: i64) -> bool {
    exists|moment: std::time::SystemTime, secs: Option<u64>|
        {
            &&& call_ensures(std::time::SystemTime::now, (), moment)
            &&& #[trigger] past_epoch(moment, secs)
            &&& now == unix_time(secs)
        }
}

/// `s` is what a timestamp reads as at a moment that the system clock showed.
pub open spec fn reads_by_the_clock(s: Seq<char>, ts: i64) -> bool {
    exists|now: i64| clock_shows(now) && s == #[trigger] relative_text(now, ts)
}

/// Unix-time helpers for history timestamps.
pub struct Time;

impl Time {
    /// Current unix time in seconds, or 0 if the system clock is before the epoch
    pub fn now_unix() -> (now: i64)
        ensures
            clock_shows(now),
    {
        let moment = std::time::SystemTime::now();
        let secs = match since_epoch(&moment) {
            Ok(elapsed) => Some(elapsed.as_secs()),
            Err(_) => None,
        };
        assert(past_epoch(moment, secs));
        Self::unix_seconds(secs)
    }

    /// Unix time for a clock that is `secs` seconds past the epoch, or before it.
    pub fn unix_seconds(secs: Option<u64>) -> (now: i64)
        ensures
            now == unix_time(secs),
    {
        match secs {
            Some(s) => {
                assert(s > i64::MAX ==> s as i64 == s - 0x1_0000_0000_0000_0000) by (bit_vector);
                s as i64
            },
            None => 0,
        }
    }

    /// Formats a unix timestamp as UTC `YYYY-MM-DD HH:MM`
    pub fn format_utc(ts: i64) -> (s: String)
        ensures
            shows_utc(s@, ts),
    {
        if ts < 0 {
            return number::to_signed_decimal(ts);
        }
        let tod: i64 = ts % 86_400;
        let hour: i64 = tod / 3600;
        let minute: i64 = (tod % 3600) / 60;
        let date = civil_date(ts / 86_400);
        proof {
            let days = ts as int / 86_400;
            assert(ts == 86_400 * days + tod);
            lemma_hours(days, tod as int);
        }
        let s = write_utc(date, hour as u64, minute as u64);
        assert(shows_date(s@, ts, date));
        s
    }

    /// Renders `ts` as a compact relative time string (e.g. `"3m"`, `"2d"`)
    pub fn relative_short(ts: i64) -> (s: String)
        ensures
            reads_by_the_clock(s@, ts),
    {
        let now = Self::now_unix();
        Self::relative_short_at(now, ts)
    }

    /// Renders `ts` as a compact relative time string, as seen at the moment `now`
    pub fn relative_short_at(now: i64, ts: i64) -> (s: String)
        ensures
            s@ == relative_text(now, ts),
    {
        if ts == 0 {
            return "never".to_string();
        }
        let secs: i64 = if now <= ts {
            0
        } else {
            match now.checked_sub(ts) {
                Some(secs) => secs,
                None => i64::MAX,
            }
        };
        Age::of(secs).label()
    }
}

/// A clock past the epoch shows its seconds, as far as 63 bits count, and from there on the same
/// number less 2^64; one before the epoch shows 0.
pub proof fn lemma_signed_seconds(secs: Option<u64>, now: i64)
    requires
        call_ensures(Time::unix_seconds, (secs,), now),
    ensures
        match secs {
            Some(s) => now == s || now == s - 0x1_0000_0000_0000_0000,
            None => now == 0,
        },
{
}

/// The time is one that the system clock showed.
pub proof fn lemma_the_clock_is_read(now: i64)
    requires
        call_ensures(Time::now_unix, (), now),
    ensures
        clock_shows(now),
{
}

/// A timestamp before the epoch is shown as its number; any other by its day, and by the hour and
/// the minute of the day, of which less than a minute is left.
pub proof fn lemma_utc_text(ts: i64, s: String, days: i64, date: CivilDate)
    requires
        call_ensures(Time::format_utc, (ts,), s),
        call_ensures(civil_date, (days,), date),
        ts >= 0 ==> days * 86_400 <= ts < (days + 1) * 86_400,
    ensures
        ts < 0 ==> s@ == number::signed_decimal(ts as int),
        ts >= 0 ==> exists|hour: nat, minute: nat|
            {
                &&& hour < 24
                &&& minute < 60
                &&& 0 <= ts - days * 86_400 - hour * 3600 - minute * 60 < 60
                &&& s@ == number::zero_padded(date.year as nat, 4) + seq!['-']
                    + number::zero_padded(date.month as nat, 2) + seq!['-'] + number::zero_padded(
                    date.day as nat,
                    2,
                ) + seq![' '] + #[trigger] number::zero_padded(hour, 2) + seq![':']
                    + #[trigger] number::zero_padded(minute, 2)
            },
{
    if ts >= 0 {
        let shown = choose|shown: CivilDate| #[trigger] shows_date(s@, ts, shown);
        assert(ts as int / 86_400 == days);
        calendar::lemma_day_number_is_unique(shown, date);
        lemma_minutes(ts);
        reveal_strlit("-");
        reveal_strlit(" ");
        reveal_strlit(":");
        let rest = ts as int % 86_400;
        assert(ts == 86_400 * days + rest);
        lemma_hours(days as int, rest);
        assert("-"@ =~= seq!['-']);
        assert(" "@ =~= seq![' ']);
        assert(":"@ =~= seq![':']);
        let hour = hour_of(ts);
        let minute = minute_of(ts);
        assert(0 <= ts - days * 86_400 - hour * 3600 - minute * 60 < 60);
        assert(s@ == number::zero_padded(date.year as nat, 4) + seq!['-'] + number::zero_padded(
            date.month as nat,
            2,
        ) + seq!['-'] + number::zero_padded(date.day as nat, 2) + seq![' ']
            + number::zero_padded(hour, 2) + seq![':'] + number::zero_padded(minute, 2));
    }
}

/// What is less than a day old reads as the whole seconds, minutes or hours that fit in its age;
/// what is not two seconds old, or still to come, as now.
pub proof fn lemma_ages_below_a_day(now: i64, ts: i64, n: nat)
    ensures
        ts == 0 ==> relative_text(now, ts) == "never"@,
        ts != 0 && now - ts < 2 ==> relative_text(now, ts) == "now"@,
        ts != 0 && 2 <= n < 60 && now - ts == n ==> relative_text(now, ts) == number::decimal(n)
            + "s"@,
        ts != 0 && 1 <= n < 60 && n * 60 <= now - ts < (n + 1) * 60 ==> relative_text(now, ts)
            == number::decimal(n) + "m"@,
        ts != 0 && 3600 <= now - ts < 7200 ==> relative_text(now, ts) == number::decimal(1)
            + "hr"@,
        ts != 0 && 2 <= n < 24 && n * 3600 <= now - ts < (n + 1) * 3600 ==> relative_text(now, ts)
            == number::decimal(n) + "hrs"@,
{
}

/// What is a day old or older reads as the whole days, from twenty days on weeks, from eight weeks
/// on months of thirty days, and from a year of 365 days on years that fit in its age; but from
/// eighteen months on as two years. From half of all time that can be counted on there is no
/// number.
pub proof fn lemma_ages_from_a_day_on(now: i64, ts: i64, n: nat)
    requires
        ts != 0,
    ensures
        1 <= n < 20 && n * 86_400 <= now - ts < (n + 1) * 86_400 ==> relative_text(now, ts)
            == number::decimal(n) + "d"@,
        20 * 86_400 <= now - ts < 56 * 86_400 && n * 604_800 <= now - ts < (n + 1) * 604_800
            ==> relative_text(now, ts) == number::decimal(n) + "w"@,
        56 * 86_400 <= now - ts < 365 * 86_400 && n * 2_592_000 <= now - ts < (n + 1) * 2_592_000
            ==> relative_text(now, ts) == number::decimal(n) + "mo"@,
        365 * 86_400 <= now - ts < 540 * 86_400 ==> relative_text(now, ts) == number::decimal(1)
            + "y"@,
        540 * 86_400 <= now - ts < 730 * 86_400 ==> relative_text(now, ts) == number::decimal(2)
            + "y"@,
        730 * 86_400 <= now - ts < i64::MAX / 2 && n * 31_536_000 <= now - ts < (n + 1) * 31_536_000
            ==> relative_text(now, ts) == number::decimal(n) + "y"@,
        now - ts >= i64::MAX / 2 ==> relative_text(now, ts) == "a long while ago"@,
{
    let secs = now - ts;
    if n * 604_800 <= secs < (n + 1) * 604_800 {
        assert(secs / 604_800 == n);
    }
    if n * 2_592_000 <= secs < (n + 1) * 2_592_000 {
        assert(secs / 2_592_000 == n);
    }
    if n * 31_536_000 <= secs < (n + 1) * 31_536_000 {
        assert(secs / 31_536_000 == n);
    }
}

/// A timestamp is rendered as it reads at the moment `now`, or at a moment that the clock showed.
pub proof fn lemma_rendered_times(now: i64, ts: i64, at_now: String, by_clock: String)
    requires
        call_ensures(Time::relative_short_at, (now, ts), at_now),
        call_ensures(Time::relative_short, (ts,), by_clock),
    ensures
        at_now@ == relative_text(now, ts),
        reads_by_the_clock(by_clock@, ts),
{
}

/// What reads by the clock is what the timestamp reads as at some moment that the clock showed.
pub proof fn lemma_read_by_the_clock(s: Seq<char>, ts: i64)
    requires
        reads_by_the_clock(s, ts),
    ensures
        exists|moment: i64| clock_shows(moment) && s == #[trigger] relative_text(moment, ts),
        ts == 0 ==> s == "never"@,
{
}

/// The clock shows the time of a moment past the epoch as its seconds, and 0 before it.
pub proof fn lemma_shown_by_the_clock(now: i64)
    requires
        clock_shows(now),
    ensures
        exists|moment: std::time::SystemTime, secs: Option<u64>|
            {
                &&& call_ensures(std::time::SystemTime::now, (), moment)
                &&& #[trigger] past_epoch(moment, secs)
                &&& match secs {
                    Some(s) => now == s || now == s - 0x1_0000_0000_0000_0000,
                    None => now == 0,
                }
            },
{
}

} // verus!
