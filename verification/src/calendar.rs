//! The Gregorian calendar from 1970 on, and the civil date of a day counted from the Unix epoch.

use vstd::prelude::*;

verus! {

/// A day of the Gregorian calendar.
#[derive(Clone, Copy, Debug, PartialEq, Eq, Structural)]
pub struct CivilDate {
    /// Year of the common era
    pub year: i64,
    /// Month, 1 for January
    pub month: i64,
    /// Day of the month, from 1
    pub day: i64,
}

/// The years that have a 29th of February.
pub open spec fn is_leap(year: int) -> bool {
    year % 4 == 0 && (year % 100 != 0 || year % 400 == 0)
}

/// How many days a year has.
pub open spec fn year_length(year: int) -> int {
    if is_leap(year) {
        366
    } else {
        365
    }
}

/// How many days a month has.
pub open spec fn month_length(year: int, month: int) -> int {
    if month == 2 {
        if is_leap(year) {
            29
        } else {
            28
        }
    } else if month == 4 || month == 6 || month == 9 || month == 11 {
        30
    } else {
        31
    }
}

/// How many days lie between 1970-01-01 and the first day of a year.
pub open spec fn days_before_year(year: int) -> int
    decreases year - 1970,
{
    if year <= 1970 {
        0
    } else {
        days_before_year(year - 1) + year_length(year - 1)
    }
}

/// How many days of a year lie before the first day of a month.
pub open spec fn days_before_month(year: int, month: int) -> int
    decreases month,
{
    if month <= 1 {
        0
    } else {
        days_before_month(year, month - 1) + month_length(year, month - 1)
    }
}

impl CivilDate {
    /// A date that the calendar has, in 1970 or later.
    pub open spec fn valid(self) -> bool {
        &&& self.year >= 1970
        &&& 1 <= self.month <= 12
        &&& 1 <= self.day <= month_length(self.year as int, self.month as int)
    }

    /// How many days lie between 1970-01-01 and this date.
    pub open spec fn day_number(self) -> int {
        days_before_year(self.year as int) + days_before_month(self.year as int, self.month as int)
            + self.day - 1
    }

    /// The date comes before another one.
    pub open spec fn before(self, other: CivilDate) -> bool {
        ||| self.year < other.year
        ||| self.year == other.year && self.month < other.month
        ||| self.year == other.year && self.month == other.month && self.day < other.day
    }
}

/// Days before a year, counted at once instead of year by year.
proof fn lemma_days_before_year(year: int)
    requires
        year >= 1970,
    ensures
        days_before_year(year) == 365 * (year - 1970) + (year - 1) / 4 - (year - 1) / 100 + (year
            - 1) / 400 - 477,
    decreases year,
{
    if year > 1970 {
        lemma_days_before_year(year - 1);
    }
}

/// Days before a month, as a table.
proof fn lemma_days_before_month(year: int, month: int)
    requires
        1 <= month <= 13,
    ensures
        days_before_month(year, month) == if month == 1 {
            0int
        } else if month == 2 {
            31
        } else {
            (if is_leap(year) {
                1int
            } else {
                0
            }) + if month == 3 {
                59int
            } else if month == 4 {
                90
            } else if month == 5 {
                120
            } else if month == 6 {
                151
            } else if month == 7 {
                181
            } else if month == 8 {
                212
            } else if month == 9 {
                243
            } else if month == 10 {
                273
            } else if month == 11 {
                304
            } else if month == 12 {
                334
            } else {
                365
            }
        },
    decreases month,
{
    if month > 1 {
        lemma_days_before_month(year, month - 1);
    }
}

/// A year's months together have as many days as the year.
pub proof fn lemma_months_fill_the_year(year: int)
    ensures
        days_before_month(year, 13) == year_length(year),
{
    lemma_days_before_month(year, 13);
}

/// Years that begin later have more days before them.
proof fn lemma_years_in_order(a: int, b: int)
    requires
        1970 <= a < b,
    ensures
        days_before_year(a) + year_length(a) <= days_before_year(b),
    decreases b - a,
{
    if a + 1 < b {
        lemma_years_in_order(a, b - 1);
    }
}

/// Months that begin later have more days before them.
proof fn lemma_months_in_order(year: int, a: int, b: int)
    requires
        1 <= a < b,
    ensures
        days_before_month(year, a) + month_length(year, a) <= days_before_month(year, b),
    decreases b - a,
{
    if a + 1 < b {
        lemma_months_in_order(year, a, b - 1);
    }
}

/// Day numbers follow the calendar: an earlier date has a smaller number.
pub proof fn lemma_day_numbers_in_order(a: CivilDate, b: CivilDate)
    requires
        a.valid(),
        b.valid(),
    ensures
        a.before(b) <==> a.day_number() < b.day_number(),
{
    lemma_ordered(a, b);
    lemma_ordered(b, a);
}

proof fn lemma_ordered(a: CivilDate, b: CivilDate)
    requires
        a.valid(),
        b.valid(),
    ensures
        a.before(b) ==> a.day_number() < b.day_number(),
{
    let y = a.year as int;
    if a.year < b.year {
        lemma_years_in_order(y, b.year as int);
        lemma_months_in_order(y, a.month as int, 13);
        lemma_months_fill_the_year(y);
        lemma_days_before_month(b.year as int, b.month as int);
    } else if a.year == b.year && a.month < b.month {
        lemma_months_in_order(y, a.month as int, b.month as int);
    }
}

/// A day number belongs to one date only.
pub proof fn lemma_day_number_is_unique(a: CivilDate, b: CivilDate)
    requires
        a.valid(),
        b.valid(),
        a.day_number() == b.day_number(),
    ensures
        a == b,
{
    lemma_day_numbers_in_order(a, b);
    lemma_day_numbers_in_order(b, a);
}

/// The number of 9999-12-31, the last day whose year has four digits.
pub proof fn lemma_last_four_digit_day()
    ensures
        (CivilDate { year: 9999, month: 12, day: 31 }).valid(),
        (CivilDate { year: 9999, month: 12, day: 31 }).day_number() == 2_932_896,
{
    lemma_days_before_year(9999);
    lemma_days_before_month(9999, 12);
}

/// Days of a 400-year cycle that begins in March, before the year `y` of the cycle.
spec fn cycle_days(y: int) -> int {
    365 * y + y / 4 - y / 100
}

/// Which year of the 400-year cycle a day of the cycle falls in.
proof fn lemma_year_of_cycle(doe: int, yoe: int)
    requires
        0 <= doe < 146_097,
        yoe == (doe - doe / 1460 + doe / 36_524 - doe / 146_096) / 365,
    ensures
        0 <= yoe < 400,
        cycle_days(yoe) <= doe,
        yoe < 399 ==> doe < cycle_days(yoe + 1),
        doe < cycle_days(yoe) + 366,
{
}

/// Days between 0000-03-01 and the first of March of a year.
spec fn days_before_march(year: int) -> int {
    365 * year + year / 4 - year / 100 + year / 400
}

/// Whole 400-year cycles and the years of the last one make up the days before March.
proof fn lemma_cycles(era: int, yoe: int)
    requires
        0 <= era,
        0 <= yoe < 400,
    ensures
        days_before_march(400 * era + yoe) == 146_097 * era + cycle_days(yoe),
{
    let year = 400 * era + yoe;
    assert(year / 4 == 100 * era + yoe / 4);
    assert(year / 100 == 4 * era + yoe / 100);
    assert(year / 400 == era);
}

/// The days before March, from the days before the year and before the next one.
proof fn lemma_march(year: int)
    requires
        year >= 1969,
    ensures
        days_before_year(year + 1) == days_before_march(year) + 306 - 719_468,
        year >= 1970 ==> days_before_year(year) + days_before_month(year, 3)
            == days_before_march(year) - 719_468,
{
    lemma_days_before_year(year + 1);
    lemma_days_before_month(year, 3);
}

/// Which month and day a day of a year that starts in March is.
proof fn lemma_month_of_year(doy: int, mp: int, day: int)
    requires
        0 <= doy <= 365,
        mp == (5 * doy + 2) / 153,
        day == doy - (153 * mp + 2) / 5 + 1,
    ensures
        0 <= mp <= 11,
        mp < 10 ==> forall|year: int|
            #![trigger is_leap(year)]
            1 <= day <= month_length(year, mp + 3) && days_before_month(year, 3) + doy
                == days_before_month(year, mp + 3) + day - 1,
        mp == 10 ==> 1 <= day <= 31 && doy == 306 + day - 1,
        mp == 11 ==> 1 <= day <= 29 && doy == 337 + day - 1,
{
    if mp < 10 {
        assert forall|year: int|
            #![trigger is_leap(year)]
            1 <= day <= month_length(year, mp + 3) && days_before_month(year, 3) + doy
                == days_before_month(year, mp + 3) + day - 1 by {
            lemma_days_before_month(year, 3);
            lemma_days_before_month(year, mp + 3);
        }
    }
}

/// A year of the cycle has 366 days, counted from March, only if a leap day ends it.
proof fn lemma_leap_day(era: int, yoe: int, doy: int)
    requires
        0 <= yoe < 400,
        yoe < 399 ==> cycle_days(yoe) + doy < cycle_days(yoe + 1),
        doy == 365,
    ensures
        is_leap(400 * era + yoe + 1),
{
    let year = 400 * era + yoe + 1;
    assert(year % 4 == (yoe + 1) % 4);
    assert(year % 100 == (yoe + 1) % 100);
    assert(year % 400 == (yoe + 1) % 400);
}

/// The date that lies `days` days after 1970-01-01.
pub fn civil_date(days: i64) -> (date: CivilDate)
    requires
        0 <= days <= i64::MAX - 719_468,
    ensures
        date.valid(),
        date.day_number() == days,
{
    // Days since 0000-03-01: with the year starting in March, a leap day is a year's last day.
    let z: i64 = days + 719_468;
    let era: i64 = z / 146_097;
    let doe: i64 = z - era * 146_097;
    let yoe: i64 = (doe - doe / 1460 + doe / 36_524 - doe / 146_096) / 365;
    proof {
        lemma_year_of_cycle(doe as int, yoe as int);
        lemma_cycles(era as int, yoe as int);
    }
    let y: i64 = yoe + era * 400;
    let doy: i64 = doe - (365 * yoe + yoe / 4 - yoe / 100);
    assert(z == days_before_march(y as int) + doy);
    let mp: i64 = (5 * doy + 2) / 153;
    let day: i64 = doy - (153 * mp + 2) / 5 + 1;
    proof {
        lemma_month_of_year(doy as int, mp as int, day as int);
        assert(y >= 1969);
        lemma_march(y as int);
        assert(mp < 10 ==> y >= 1970);
    }
    let month: i64 = if mp < 10 {
        mp + 3
    } else {
        mp - 9
    };
    let year: i64 = if month <= 2 {
        y + 1
    } else {
        y
    };
    proof {
        assert(is_leap(y as int) || !is_leap(y as int));
        if mp == 11 && doy == 365 {
            lemma_leap_day(era as int, yoe as int, doy as int);
        }
        lemma_days_before_month(y + 1, 1);
        lemma_days_before_month(y + 1, 2);
    }
    CivilDate { year, month, day }
}

/// The days are counted from the first of January 1970.
pub proof fn lemma_the_first_day(date: CivilDate)
    requires
        call_ensures(civil_date, (0i64,), date),
    ensures
        date.year == 1970,
        date.month == 1,
        date.day == 1,
{
    let first = CivilDate { year: 1970, month: 1, day: 1 };
    lemma_day_number_is_unique(first, date);
}

/// From one day to the next the day goes up by one; behind the last day of a month comes the first
/// of the next one, and behind December the January of the next year. February has 29 days every
/// fourth year, but of the full hundreds only every fourth.
pub proof fn lemma_the_next_day(days: i64, next: i64, today: CivilDate, tomorrow: CivilDate)
    requires
        0 <= days,
        next == days + 1,
        call_ensures(civil_date, (days,), today),
        call_ensures(civil_date, (next,), tomorrow),
    ensures
        ({
            let CivilDate { year, month, day } = today;
            let length: int = if month == 2 {
                if year as int % 4 == 0 && (year as int % 100 != 0 || year as int % 400 == 0) {
                    29
                } else {
                    28
                }
            } else if month == 4 || month == 6 || month == 9 || month == 11 {
                30
            } else {
                31
            };
            &&& year >= 1970
            &&& 1 <= month <= 12
            &&& 1 <= day <= length
            &&& day < length ==> tomorrow.year == year && tomorrow.month == month && tomorrow.day
                == day + 1
            &&& day == length && month < 12 ==> tomorrow.year == year && tomorrow.month == month
                + 1 && tomorrow.day == 1
            &&& day == length && month == 12 ==> tomorrow.year == year + 1 && tomorrow.month == 1
                && tomorrow.day == 1
        }),
{
    let CivilDate { year, month, day } = today;
    let y = year as int;
    lemma_days_before_year(y);
    lemma_days_before_month(y, month as int);
    assert(year < i64::MAX);
    let after = if day < month_length(y, month as int) {
        CivilDate { year, month, day: (day + 1) as i64 }
    } else if month < 12 {
        CivilDate { year, month: (month + 1) as i64, day: 1 }
    } else {
        lemma_months_fill_the_year(y);
        CivilDate { year: (year + 1) as i64, month: 1, day: 1 }
    };
    assert(after.day_number() == today.day_number() + 1);
    lemma_day_number_is_unique(after, tomorrow);
}

} // verus!
