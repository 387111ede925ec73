//! Calendar dates of the proleptic Gregorian calendar, counted in days from
//! 1970-01-01.
use vstd::prelude::*;

verus! {

/// Every fourth year is a leap year, but of the full centuries only every
/// fourth.
pub open spec fn is_leap(y: int) -> bool {
    y % 4 == 0 && (y % 100 != 0 || y % 400 == 0)
}

/// Number of days of a month.
pub open spec fn month_len(y: int, m: int) -> int {
    if m == 2 {
        if is_leap(y) {
            29
        } else {
            28
        }
    } else if m == 4 || m == 6 || m == 9 || m == 11 {
        30
    } else {
        31
    }
}

/// Number of days of the months before `m`.
pub open spec fn days_before_month(y: int, m: int) -> int
    decreases m,
{
    if m <= 1 {
        0
    } else {
        days_before_month(y, m - 1) + month_len(y, m - 1)
    }
}

/// The day count of the first of January: a year has 365 days, and one more
/// for every leap year before this one.
pub open spec fn year_start(y: int) -> int {
    365 * (y - 1970) + ((y - 1) / 4 - (y - 1) / 100 + (y - 1) / 400) - 477
}

/// Whether there is such a date.
pub open spec fn is_date(y: int, m: int, d: int) -> bool {
    1 <= m <= 12 && 1 <= d <= month_len(y, m)
}

/// The day count of a date.
pub open spec fn day_number(y: int, m: int, d: int) -> int {
    year_start(y) + days_before_month(y, m) + d - 1
}

/// The date with the given day count.
pub open spec fn date_of(z: int) -> (int, int, int) {
    choose|t: (int, int, int)| is_date(t.0, t.1, t.2) && #[trigger] day_number(t.0, t.1, t.2) == z
}

/// The first day of 1970 has number zero, and a year is as long as its leap
/// day says.
pub proof fn law_year_length(y: int)
    ensures
        day_number(1970, 1, 1) == 0,
        year_start(y + 1) - year_start(y) == (if is_leap(y) {
            366int
        } else {
            365
        }),
        days_before_month(y, 13) == year_start(y + 1) - year_start(y),
{
    reveal_with_fuel(days_before_month, 14);
}

/// The months of a year follow each other.
proof fn lemma_months_ascend(y: int, a: int, b: int)
    requires
        1 <= a < b <= 13,
    ensures
        days_before_month(y, a) + month_len(y, a) <= days_before_month(y, b),
    decreases b - a,
{
    if a + 1 < b {
        lemma_months_ascend(y, a, b - 1);
    }
}

/// The years follow each other.
pub proof fn lemma_years_ascend(a: int, b: int)
    requires
        a < b,
    ensures
        year_start(a + 1) <= year_start(b),
    decreases b - a,
{
    if a + 1 < b {
        lemma_years_ascend(a, b - 1);
        law_year_length(b - 1);
    }
}

/// A date lies in its year.
pub proof fn lemma_in_year(y: int, m: int, d: int)
    requires
        is_date(y, m, d),
    ensures
        year_start(y) <= day_number(y, m, d) < year_start(y + 1),
{
    law_year_length(y);
    lemma_months_ascend(y, m, 13);
    if m > 1 {
        lemma_months_ascend(y, 1, m);
    }
}

/// Two dates with the same day count are the same date.
pub proof fn law_date_unique(y: int, m: int, d: int, y2: int, m2: int, d2: int)
    requires
        is_date(y, m, d),
        is_date(y2, m2, d2),
        day_number(y, m, d) == day_number(y2, m2, d2),
    ensures
        y == y2,
        m == m2,
        d == d2,
{
    lemma_in_year(y, m, d);
    lemma_in_year(y2, m2, d2);
    if y < y2 {
        lemma_years_ascend(y, y2);
    } else if y2 < y {
        lemma_years_ascend(y2, y);
    }
    if m < m2 {
        lemma_months_ascend(y, m, m2);
    } else if m2 < m {
        lemma_months_ascend(y, m2, m);
    }
}

/// A date is the date with its day count.
pub proof fn lemma_date_of(y: int, m: int, d: int)
    requires
        is_date(y, m, d),
    ensures
        date_of(day_number(y, m, d)) == (y, m, d),
{
    let z = day_number(y, m, d);
    let t = (y, m, d);
    assert(is_date(t.0, t.1, t.2) && day_number(t.0, t.1, t.2) == z);
    let u = date_of(z);
    law_date_unique(u.0, u.1, u.2, y, m, d);
}

/// Number of days from the first of March of year zero to that of year `y`.
pub open spec fn march_start(y: int) -> int {
    365 * y + y / 4 - y / 100 + y / 400
}

/// The day count of a date, by a formula that is defined for any month and
/// day number: years begin in March, so that the leap day is the last one,
/// and five months always have 153 days.
pub open spec fn civil_days(y: int, m: int, d: int) -> int {
    let my = if m <= 2 {
        y - 1
    } else {
        y
    };
    let mp = if m > 2 {
        m - 3
    } else {
        m + 9
    };
    march_start(my) + (153 * mp + 2) / 5 + d - 1 - 719468
}

/// For a month of the calendar the formula gives the day count.
pub proof fn law_civil_days(y: int, m: int, d: int)
    requires
        1 <= m <= 12,
    ensures
        civil_days(y, m, d) == day_number(y, m, d),
{
    reveal_with_fuel(days_before_month, 13);
}

/// Years of an era of 400 years: the year that the formula yields is the one
/// in which the day lies.
proof fn lemma_year_of_era(doe: int, yoe: int)
    requires
        0 <= doe <= 146096,
        yoe == (doe - doe / 1460 + doe / 36524 - doe / 146096) / 365,
    ensures
        0 <= yoe <= 399,
        0 <= doe - (365 * yoe + yoe / 4 - yoe / 100) <= 365,
        doe - (365 * yoe + yoe / 4 - yoe / 100) == 365 ==> is_leap(yoe + 1),
{
}

/// The parts of an era-based day count give it back.
proof fn lemma_era(z: int, era: int, doe: int, yoe: int, doy: int)
    requires
        doe == z - era * 146097,
        0 <= yoe <= 399,
        doy == doe - (365 * yoe + yoe / 4 - yoe / 100),
    ensures
        march_start(yoe + era * 400) + doy == z,
{
}

/// Months of a year that begins in March: the month and day that the formula
/// yields are those in which the day lies.
proof fn lemma_month_of_year(doy: int, mp: int, d: int, m: int)
    requires
        0 <= doy <= 365,
        mp == (5 * doy + 2) / 153,
        d == doy - (153 * mp + 2) / 5 + 1,
        m == (if mp < 10 {
            mp + 3
        } else {
            mp - 9
        }),
    ensures
        1 <= m <= 12,
        mp == (if m > 2 {
            m - 3
        } else {
            m + 9
        }),
        1 <= d <= 31,
        m == 4 || m == 6 || m == 9 || m == 11 ==> d <= 30,
        m == 2 ==> d <= 29,
        m == 2 && doy != 365 ==> d <= 28,
{
}

/// Leap years recur every 400 years.
proof fn lemma_leap_recurs(y: int, era: int)
    requires
        is_leap(y),
    ensures
        is_leap(y + era * 400),
{
}

/// The date in which a day of a year that begins in March lies.
proof fn lemma_civil(z: int, y: int, doy: int, mp: int, d: int, m: int, year: int)
    requires
        march_start(y) + doy == z + 719468,
        doy == (153 * mp + 2) / 5 + d - 1,
        1 <= m <= 12,
        mp == (if m > 2 {
            m - 3
        } else {
            m + 9
        }),
        1 <= d <= 31,
        m == 4 || m == 6 || m == 9 || m == 11 ==> d <= 30,
        m == 2 ==> d <= 29,
        m == 2 && doy != 365 ==> d <= 28,
        doy == 365 ==> is_leap(y + 1),
        year == (if m <= 2 {
            y + 1
        } else {
            y
        }),
    ensures
        is_date(year, m, d),
        day_number(year, m, d) == z,
{
    law_civil_days(year, m, d);
}

/// Converts a day count since 1970-01-01 into `(year, month, day)`.
pub fn civil_from_days(z: i64) -> (r: (i64, u32, u32))
    requires
        z <= i64::MAX - 719468,
    ensures
        is_date(r.0 as int, r.1 as int, r.2 as int),
        day_number(r.0 as int, r.1 as int, r.2 as int) == z,
        (r.0 as int, r.1 as int, r.2 as int) == date_of(z as int),
{
    let z0: i64 = z + 719468;
    let era: i64 = if z0 >= 0 {
        z0 / 146097
    } else {
        -((146096 - z0) / 146097)
    };
    let doe: i64 = z0 - era * 146097;
    let yoe: i64 = (doe - doe / 1460 + doe / 36524 - doe / 146096) / 365;
    proof {
        lemma_year_of_era(doe as int, yoe as int);
    }
    let y: i64 = yoe + era * 400;
    let doy: i64 = doe - (365 * yoe + yoe / 4 - yoe / 100);
    let mp: i64 = (5 * doy + 2) / 153;
    let d: i64 = doy - (153 * mp + 2) / 5 + 1;
    let m: i64 = if mp < 10 {
        mp + 3
    } else {
        mp - 9
    };
    let year: i64 = if m <= 2 {
        y + 1
    } else {
        y
    };
    proof {
        lemma_month_of_year(doy as int, mp as int, d as int, m as int);
        lemma_era(z0 as int, era as int, doe as int, yoe as int, doy as int);
        if doy == 365 {
            lemma_leap_recurs(yoe + 1, era as int);
        }
        lemma_civil(z as int, y as int, doy as int, mp as int, d as int, m as int, year as int);
        lemma_date_of(year as int, m as int, d as int);
    }
    (year, m as u32, d as u32)
}

/// Converts `(year, month, day)` into a day count since 1970-01-01.
pub fn days_from_civil(y: i64, m: u32, d: u32) -> (r: i64)
    requires
        i64::MIN <= civil_days(y as int, m as int, d as int) <= i64::MAX,
    ensures
        r == civil_days(y as int, m as int, d as int),
        1 <= m <= 12 ==> r == day_number(y as int, m as int, d as int),
{
    let my: i128 = if m <= 2 {
        y as i128 - 1
    } else {
        y as i128
    };
    let era: i128 = if my >= 0 {
        my / 400
    } else {
        -((399 - my) / 400)
    };
    let yoe: i128 = my - era * 400;
    let mp: i128 = if m > 2 {
        m as i128 - 3
    } else {
        m as i128 + 9
    };
    let doy: i128 = (153 * mp + 2) / 5 + d as i128 - 1;
    let doe: i128 = yoe * 365 + yoe / 4 - yoe / 100 + doy;
    proof {
        lemma_era(era * 146097 + doe, era as int, doe as int, yoe as int, doy as int);
        if 1 <= m <= 12 {
            law_civil_days(y as int, m as int, d as int);
        }
    }
    (era * 146097 + doe - 719468) as i64
}

/// The two conversions are inverse.
pub proof fn law_days_round_trip(z: int, y: int, m: int, d: int)
    ensures
        is_date(y, m, d) && day_number(y, m, d) == z ==> civil_days(y, m, d) == z && date_of(z) == (
            y,
            m,
            d,
        ),
{
    if is_date(y, m, d) && day_number(y, m, d) == z {
        law_civil_days(y, m, d);
        lemma_date_of(y, m, d);
    }
}

} // verus!
