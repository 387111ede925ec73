//! Timestamps of the form `2026-01-12T08:30:00Z`: an ISO-8601 date and time of
//! day with an optional fraction of a second and an optional zone.
use vstd::prelude::*;
use crate::calendar::{
    civil_days, day_number, days_from_civil, is_date, is_leap, law_civil_days, lemma_in_year,
    month_len,
};
use crate::text::chars_of;

verus! {

/// Whether the character is an ASCII digit.
pub open spec fn is_digit(c: char) -> bool {
    '0' <= c <= '9'
}

/// Whether there are two digits at `i`.
pub open spec fn has_pair(s: Seq<char>, i: int) -> bool {
    0 <= i && i + 2 <= s.len() && is_digit(s[i]) && is_digit(s[i + 1])
}

/// The number that the two digits at `i` stand for.
pub open spec fn pair(s: Seq<char>, i: int) -> int {
    10 * (s[i] as int - 48) + (s[i + 1] as int - 48)
}

/// Whether the character may stand between a date and a time of day.
pub open spec fn is_separator(c: char) -> bool {
    c == 'T' || c == 't' || c == ' '
}

/// Whether the text begins with a date and a time of day, as they are written:
/// `YYYY-MM-DDThh:mm:ss`.
pub open spec fn has_shape(s: Seq<char>) -> bool {
    &&& s.len() >= 19
    &&& has_pair(s, 0) && has_pair(s, 2) && s[4] == '-' && has_pair(s, 5) && s[7] == '-'
    &&& has_pair(s, 8) && is_separator(s[10]) && has_pair(s, 11) && s[13] == ':' && has_pair(s, 14)
    &&& s[16] == ':' && has_pair(s, 17)
}

/// The position behind the digits that stand from `i` on.
pub open spec fn digits_end(s: Seq<char>, i: int) -> int
    decreases s.len() - i,
{
    if 0 <= i < s.len() && is_digit(s[i]) {
        digits_end(s, i + 1)
    } else {
        i
    }
}

/// The position behind the fraction of a second; none if there is a sign for
/// one without digits.
pub open spec fn fraction_end(s: Seq<char>) -> Option<int> {
    if s.len() > 19 && (s[19] == '.' || s[19] == ',') {
        if digits_end(s, 20) > 20 {
            Some(digits_end(s, 20))
        } else {
            None
        }
    } else {
        Some(19)
    }
}

/// How many minutes a zone is ahead of UTC: nothing at all and `Z` are UTC, a
/// sign is followed by hours, or by hours and minutes with or without a colon.
pub open spec fn zone_minutes(z: Seq<char>) -> Option<int> {
    if z.len() == 0 || z == seq!['Z'] || z == seq!['z'] {
        Some(0)
    } else if z[0] != '+' && z[0] != '-' {
        None
    } else if !has_pair(z, 1) || pair(z, 1) > 23 {
        None
    } else {
        let minutes = if z.len() == 3 {
            Some(pair(z, 1) * 60)
        } else if z.len() == 5 && has_pair(z, 3) && pair(z, 3) <= 59 {
            Some(pair(z, 1) * 60 + pair(z, 3))
        } else if z.len() == 6 && z[3] == ':' && has_pair(z, 4) && pair(z, 4) <= 59 {
            Some(pair(z, 1) * 60 + pair(z, 4))
        } else {
            None
        };
        match minutes {
            Some(n) => Some(
                if z[0] == '+' {
                    n
                } else {
                    -n
                },
            ),
            None => None,
        }
    }
}

/// The year that a text of that shape begins with.
pub open spec fn year_in(s: Seq<char>) -> int {
    100 * pair(s, 0) + pair(s, 2)
}

/// Whether a day has such a time. A minute may end with a leap second, and a day
/// with 24 o'clock, which is the midnight that follows it.
pub open spec fn is_time(hour: int, minute: int, second: int) -> bool {
    if hour == 24 {
        minute == 0 && second == 0
    } else {
        hour <= 23 && minute <= 59 && second <= 60
    }
}

/// Whether the text is a timestamp: one that names a day of the calendar and a
/// time of that day, and nothing else but a fraction and a zone.
pub open spec fn is_timestamp(s: Seq<char>) -> bool {
    &&& has_shape(s)
    &&& is_date(year_in(s), pair(s, 5), pair(s, 8))
    &&& is_time(pair(s, 11), pair(s, 14), pair(s, 17))
    &&& fraction_end(s) matches Some(e) && zone_minutes(s.skip(e)) is Some
}

/// The Unix seconds of a timestamp, without its fraction. A text that is no
/// timestamp, and a time before 1970, count as zero.
pub open spec fn unix_time(s: Seq<char>) -> u64 {
    if !is_timestamp(s) {
        0
    } else {
        let t = day_number(year_in(s), pair(s, 5), pair(s, 8)) * 86400 + pair(s, 11) * 3600 + pair(
            s,
            14,
        ) * 60 + pair(s, 17) - zone_minutes(s.skip(fraction_end(s)->0))->0 * 60;
        if t < 0 {
            0
        } else {
            t as u64
        }
    }
}

/// Reads the two digits at `i`.
fn read_pair(cs: &Vec<char>, i: usize) -> (r: Option<u32>)
    ensures
        match r {
            Some(n) => has_pair(cs@, i as int) && n == pair(cs@, i as int) && n <= 99,
            None => !has_pair(cs@, i as int),
        },
{
    let len = cs.len();
    if len < 2 || i > len - 2 {
        return None;
    }
    let (a, b) = (cs[i], cs[i + 1]);
    if '0' <= a && a <= '9' && '0' <= b && b <= '9' {
        Some(10 * (a as u32 - 48) + (b as u32 - 48))
    } else {
        None
    }
}

/// Finds the end of the fraction of a second.
fn find_fraction_end(cs: &Vec<char>) -> (r: Option<usize>)
    requires
        cs@.len() >= 19,
    ensures
        match r {
            Some(e) => fraction_end(cs@) == Some(e as int) && 19 <= e <= cs@.len(),
            None => fraction_end(cs@) is None,
        },
{
    let len = cs.len();
    if len == 19 || (cs[19] != '.' && cs[19] != ',') {
        return Some(19);
    }
    let mut e: usize = 20;
    while e < len && '0' <= cs[e] && cs[e] <= '9'
        invariant
            len == cs@.len(),
            20 <= e <= len,
            digits_end(cs@, 20) == digits_end(cs@, e as int),
        decreases len - e,
    {
        e = e + 1;
    }
    if e > 20 {
        Some(e)
    } else {
        None
    }
}

/// Reads a zone.
fn read_zone(cs: &Vec<char>, from: usize) -> (r: Option<i64>)
    requires
        from <= cs@.len(),
    ensures
        match r {
            Some(n) => zone_minutes(cs@.skip(from as int)) == Some(n as int) && -1440 < n < 1440,
            None => zone_minutes(cs@.skip(from as int)) is None,
        },
{
    let ghost z = cs@.skip(from as int);
    let n = cs.len() - from;
    if n == 0 {
        return Some(0);
    }
    let c = cs[from];
    assert(c == z[0]);
    if n == 1 && (c == 'Z' || c == 'z') {
        assert(z =~= seq![c]);
        return Some(0);
    }
    assert(z != seq!['Z'] && z != seq!['z']) by {
        assert(z.len() == n);
        assert(seq!['Z'].len() == 1 && seq!['Z'][0] == 'Z');
        assert(seq!['z'].len() == 1 && seq!['z'][0] == 'z');
    }
    if c != '+' && c != '-' {
        return None;
    }
    if n != 3 && n != 5 && n != 6 {
        return None;
    }
    assert(z[1] == cs@[from + 1] && z[2] == cs@[from + 2]);
    let hours = match read_pair(cs, from + 1) {
        Some(h) => h,
        None => {
            return None;
        },
    };
    if hours > 23 {
        return None;
    }
    let minutes: u32 = if n == 3 {
        0
    } else {
        assert(z[3] == cs@[from + 3] && z[4] == cs@[from + 4]);
        if n == 6 && cs[from + 3] != ':' {
            return None;
        }
        let at: usize = if n == 6 {
            assert(z[5] == cs@[from + 5]);
            from + 4
        } else {
            from + 3
        };
        match read_pair(cs, at) {
            Some(m) => if m <= 59 {
                m
            } else {
                return None;
            },
            None => {
                return None;
            },
        }
    };
    let ahead: i64 = hours as i64 * 60 + minutes as i64;
    if c == '+' {
        Some(ahead)
    } else {
        Some(0 - ahead)
    }
}

/// Whether there is such a date.
fn date_exists(y: u32, m: u32, d: u32) -> (r: bool)
    ensures
        r == is_date(y as int, m as int, d as int),
{
    if m < 1 || m > 12 || d < 1 {
        return false;
    }
    let leap = y % 4 == 0 && (y % 100 != 0 || y % 400 == 0);
    assert(leap == is_leap(y as int));
    let days: u32 = if m == 2 {
        if leap {
            29
        } else {
            28
        }
    } else if m == 4 || m == 6 || m == 9 || m == 11 {
        30
    } else {
        31
    };
    assert(days == month_len(y as int, m as int));
    d <= days
}

/// Whether a day has such a time.
fn time_exists(hour: u32, minute: u32, second: u32) -> (r: bool)
    ensures
        r == is_time(hour as int, minute as int, second as int),
{
    if hour == 24 {
        minute == 0 && second == 0
    } else {
        hour <= 23 && minute <= 59 && second <= 60
    }
}

/// The date and the time of day that a text begins with: year, month, day,
/// hour, minute and second.
fn read_shape(cs: &Vec<char>) -> (r: Option<(u32, u32, u32, u32, u32, u32)>)
    ensures
        match r {
            Some(t) => has_shape(cs@) && t.0 == year_in(cs@) && t.1 == pair(cs@, 5) && t.2 == pair(
                cs@,
                8,
            ) && t.3 == pair(cs@, 11) && t.4 == pair(cs@, 14) && t.5 == pair(cs@, 17) && t.0
                <= 9999,
            None => !has_shape(cs@),
        },
{
    if cs.len() < 19 || cs[4] != '-' || cs[7] != '-' || cs[13] != ':' || cs[16] != ':' {
        return None;
    }
    if cs[10] != 'T' && cs[10] != 't' && cs[10] != ' ' {
        return None;
    }
    let century = read_pair(cs, 0);
    let year = read_pair(cs, 2);
    let month = read_pair(cs, 5);
    let day = read_pair(cs, 8);
    let hour = read_pair(cs, 11);
    let minute = read_pair(cs, 14);
    let second = read_pair(cs, 17);
    match (century, year, month, day, hour, minute, second) {
        (Some(c), Some(y), Some(m), Some(d), Some(h), Some(mi), Some(se)) => Some(
            (100 * c + y, m, d, h, mi, se),
        ),
        _ => None,
    }
}

/// The day count of a date of the first ten thousand years is far from the
/// limits.
proof fn lemma_days_bound(y: int, m: int, d: int)
    requires
        0 <= y <= 9999,
        is_date(y, m, d),
    ensures
        civil_days(y, m, d) == day_number(y, m, d),
        -1_000_000 <= day_number(y, m, d) <= 4_000_000,
{
    law_civil_days(y, m, d);
    lemma_in_year(y, m, d);
}

/// Converts a timestamp to Unix seconds. Deliberately tolerant: a text that is
/// no timestamp gives zero.
pub fn parse_iso8601_to_unix(s: &str) -> (r: u64)
    ensures
        r == unix_time(s@),
{
    let cs = chars_of(s);
    let (year, month, day, hour, minute, second) = match read_shape(&cs) {
        Some(t) => t,
        None => {
            return 0;
        },
    };
    if !date_exists(year, month, day) || !time_exists(hour, minute, second) {
        return 0;
    }
    let zone = match find_fraction_end(&cs) {
        Some(e) => read_zone(&cs, e),
        None => None,
    };
    let ahead = match zone {
        Some(n) => n,
        None => {
            return 0;
        },
    };
    proof {
        lemma_days_bound(year as int, month as int, day as int);
    }
    let days: i64 = days_from_civil(year as i64, month, day);
    let t: i64 = days * 86400 + (hour as i64) * 3600 + (minute as i64) * 60 + second as i64 - ahead
        * 60;
    if t < 0 {
        0
    } else {
        t as u64
    }
}

} // verus!
