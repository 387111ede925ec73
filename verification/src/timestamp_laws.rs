//! Laws of timestamps: the time that a timestamp names is the time it is read
//! as, and nothing else is read as a time.
use vstd::prelude::*;
use crate::calendar::{
    day_number, days_before_month, is_date, law_year_length, lemma_in_year, month_len,
};
use crate::text::digit_char;
use crate::timestamp::{
    digits_end, fraction_end, has_pair, has_shape, is_digit, is_separator, is_time, is_timestamp,
    pair, unix_time, year_in, zone_minutes,
};

verus! {

/// Two digits for a number below a hundred.
pub open spec fn two(n: nat) -> Seq<char> {
    seq![digit_char(n / 10), digit_char(n % 10)]
}

/// The timestamp with the given parts, up to the seconds.
pub open spec fn stamp(
    y: nat,
    m: nat,
    d: nat,
    sep: char,
    hour: nat,
    minute: nat,
    second: nat,
) -> Seq<char> {
    two(y / 100) + two(y % 100) + seq!['-'] + two(m) + seq!['-'] + two(d) + seq![sep] + two(hour)
        + seq![':'] + two(minute) + seq![':'] + two(second)
}

/// A fraction of a second with the given digits; nothing without digits.
pub open spec fn fraction(digits: Seq<char>) -> Seq<char> {
    if digits.len() == 0 {
        Seq::empty()
    } else {
        seq!['.'] + digits
    }
}

/// A zone that is so far ahead of UTC, or behind it.
pub open spec fn zone(ahead: bool, hours: nat, minutes: nat) -> Seq<char> {
    seq![
        if ahead {
            '+'
        } else {
            '-'
        },
    ] + two(hours) + seq![':'] + two(minutes)
}

/// A time in seconds; one before 1970 counts as zero.
pub open spec fn from_1970(t: int) -> int {
    if t < 0 {
        0
    } else {
        t
    }
}

proof fn lemma_two(n: nat)
    requires
        n < 100,
    ensures
        has_pair(two(n), 0),
        pair(two(n), 0) == n,
{
}

/// What is read of a text that begins with a stamp.
proof fn lemma_stamp(
    y: nat,
    m: nat,
    d: nat,
    sep: char,
    hour: nat,
    minute: nat,
    second: nat,
    tail: Seq<char>,
)
    requires
        y < 10000,
        m < 100,
        d < 100,
        is_separator(sep),
        hour < 100,
        minute < 100,
        second < 100,
    ensures
        ({
            let s = stamp(y, m, d, sep, hour, minute, second) + tail;
            &&& has_shape(s)
            &&& year_in(s) == y && pair(s, 5) == m && pair(s, 8) == d
            &&& pair(s, 11) == hour && pair(s, 14) == minute && pair(s, 17) == second
            &&& s.len() == 19 + tail.len()
            &&& forall|i: int| 19 <= i < s.len() ==> #[trigger] s[i] == tail[i - 19]
        }),
{
    lemma_two(y / 100);
    lemma_two(y % 100);
    lemma_two(m);
    lemma_two(d);
    lemma_two(hour);
    lemma_two(minute);
    lemma_two(second);
    let s = stamp(y, m, d, sep, hour, minute, second) + tail;
    assert(s[0] == two(y / 100)[0] && s[1] == two(y / 100)[1]);
    assert(s[2] == two(y % 100)[0] && s[3] == two(y % 100)[1]);
    assert(s[5] == two(m)[0] && s[6] == two(m)[1]);
    assert(s[8] == two(d)[0] && s[9] == two(d)[1]);
    assert(s[11] == two(hour)[0] && s[12] == two(hour)[1]);
    assert(s[14] == two(minute)[0] && s[15] == two(minute)[1]);
    assert(s[17] == two(second)[0] && s[18] == two(second)[1]);
}

/// The digits from `i` to `j` end at `j` if none follows.
proof fn lemma_digits_end(s: Seq<char>, i: int, j: int)
    requires
        0 <= i <= j <= s.len(),
        forall|k: int| i <= k < j ==> is_digit(#[trigger] s[k]),
        j < s.len() ==> !is_digit(s[j]),
    ensures
        digits_end(s, i) == j,
    decreases j - i,
{
    if i < j {
        lemma_digits_end(s, i + 1, j);
    }
}

/// Where the fraction of a stamp ends, and what follows it.
proof fn lemma_fraction(s: Seq<char>, digits: Seq<char>, z: Seq<char>)
    requires
        s.len() == 19 + (fraction(digits) + z).len(),
        forall|i: int| 19 <= i < s.len() ==> #[trigger] s[i] == (fraction(digits) + z)[i - 19],
        forall|i: int| 0 <= i < digits.len() ==> is_digit(#[trigger] digits[i]),
        z.len() > 0 ==> z[0] == 'Z' || z[0] == 'z' || z[0] == '+' || z[0] == '-',
    ensures
        fraction_end(s) matches Some(e) && s.skip(e) == z,
{
    let f = fraction(digits);
    if digits.len() > 0 {
        let e = 20 + digits.len() as int;
        assert forall|k: int| 20 <= k < e implies is_digit(#[trigger] s[k]) by {
            assert(s[k] == (f + z)[k - 19]);
            assert(s[k] == digits[k - 20]);
        }
        assert(s[19] == (f + z)[0]);
        if z.len() > 0 {
            assert(s[e] == (f + z)[e - 19]);
            assert(s[e] == z[0]);
        }
        lemma_digits_end(s, 20, e);
        assert(s.skip(e) =~= z);
    } else {
        if z.len() > 0 {
            assert(s[19] == (f + z)[0]);
        }
        assert(s.skip(19) =~= z);
    }
}

/// A timestamp is read as the time it names. Its fraction does not count, and
/// its zone does: a time in a zone ahead of UTC comes that much earlier.
pub proof fn law_timestamp_is_read(
    y: nat,
    m: nat,
    d: nat,
    sep: char,
    hour: nat,
    minute: nat,
    second: nat,
    digits: Seq<char>,
    ahead: bool,
    hours: nat,
    minutes: nat,
)
    requires
        y <= 9999,
        is_date(y as int, m as int, d as int),
        is_separator(sep),
        is_time(hour as int, minute as int, second as int),
        hours <= 23,
        minutes <= 59,
        forall|i: int| 0 <= i < digits.len() ==> is_digit(#[trigger] digits[i]),
    ensures
        ({
            let front = stamp(y, m, d, sep, hour, minute, second) + fraction(digits);
            let t = day_number(y as int, m as int, d as int) * 86400 + hour * 3600 + minute * 60
                + second;
            let shift = (hours * 3600 + minutes * 60) as int;
            &&& unix_time(front) == from_1970(t)
            &&& unix_time(front + seq!['Z']) == from_1970(t)
            &&& unix_time(front + seq!['z']) == from_1970(t)
            &&& unix_time(front + zone(ahead, hours, minutes)) == from_1970(
                if ahead {
                    t - shift
                } else {
                    t + shift
                },
            )
        }),
{
    let front = stamp(y, m, d, sep, hour, minute, second) + fraction(digits);
    let none = Seq::<char>::empty();
    assert(front + none =~= front);
    lemma_read(y, m, d, sep, hour, minute, second, digits, none);
    lemma_read(y, m, d, sep, hour, minute, second, digits, seq!['Z']);
    lemma_read(y, m, d, sep, hour, minute, second, digits, seq!['z']);
    lemma_zone(ahead, hours, minutes);
    lemma_read(y, m, d, sep, hour, minute, second, digits, zone(ahead, hours, minutes));
}

/// What is read of a zone.
proof fn lemma_zone(ahead: bool, hours: nat, minutes: nat)
    requires
        hours <= 23,
        minutes <= 59,
    ensures
        zone(ahead, hours, minutes).len() == 6,
        zone(ahead, hours, minutes)[0] == '+' || zone(ahead, hours, minutes)[0] == '-',
        zone_minutes(zone(ahead, hours, minutes)) == Some(
            if ahead {
                (hours * 60 + minutes) as int
            } else {
                -(hours * 60 + minutes)
            },
        ),
{
    let z = zone(ahead, hours, minutes);
    lemma_two(hours);
    lemma_two(minutes);
    assert(z[1] == two(hours)[0] && z[2] == two(hours)[1]);
    assert(z[4] == two(minutes)[0] && z[5] == two(minutes)[1]);
    assert(z != seq!['Z'] && z != seq!['z']) by {
        assert(z.len() == 6);
    }
}

proof fn lemma_read(
    y: nat,
    m: nat,
    d: nat,
    sep: char,
    hour: nat,
    minute: nat,
    second: nat,
    digits: Seq<char>,
    z: Seq<char>,
)
    requires
        y <= 9999,
        is_date(y as int, m as int, d as int),
        is_separator(sep),
        is_time(hour as int, minute as int, second as int),
        forall|i: int| 0 <= i < digits.len() ==> is_digit(#[trigger] digits[i]),
        z.len() > 0 ==> z[0] == 'Z' || z[0] == 'z' || z[0] == '+' || z[0] == '-',
        zone_minutes(z) matches Some(n) && -1440 < n < 1440,
    ensures
        unix_time(stamp(y, m, d, sep, hour, minute, second) + fraction(digits) + z) == from_1970(
            day_number(y as int, m as int, d as int) * 86400 + hour * 3600 + minute * 60 + second
                - zone_minutes(z)->0 * 60,
        ),
{
    let tail = fraction(digits) + z;
    let s = stamp(y, m, d, sep, hour, minute, second) + tail;
    assert(s =~= stamp(y, m, d, sep, hour, minute, second) + fraction(digits) + z);
    lemma_stamp(y, m, d, sep, hour, minute, second, tail);
    lemma_fraction(s, digits, z);
    lemma_in_year(y as int, m as int, d as int);
}

/// A text that is no timestamp gives zero, whatever is wrong with it: its
/// shape, a date that is not in the calendar, or a time that no day has.
pub proof fn law_bad_timestamp_is_zero(s: Seq<char>)
    ensures
        !is_timestamp(s) ==> unix_time(s) == 0,
        !has_shape(s) ==> unix_time(s) == 0,
        !is_date(year_in(s), pair(s, 5), pair(s, 8)) ==> unix_time(s) == 0,
        !is_time(pair(s, 11), pair(s, 14), pair(s, 17)) ==> unix_time(s) == 0,
{
}

/// The days of a month.
pub open spec fn days_in(y: int, m: int) -> int {
    let common = seq![31int, 28, 31, 30, 31, 30, 31, 31, 30, 31, 30, 31];
    common[m - 1] + if m == 2 && y % 4 == 0 && !(y % 100 == 0 && y % 400 != 0) {
        1int
    } else {
        0
    }
}

/// Whether a date and a time of day are ones that there are: 23:59:60 is a leap
/// second, and 24:00:00 the end of a day.
pub open spec fn there_is(y: nat, m: nat, d: nat, hour: nat, minute: nat, second: nat) -> bool {
    &&& 1 <= m <= 12 && 1 <= d <= days_in(y as int, m as int)
    &&& (hour < 24 && minute < 60 && second <= 60) || (hour == 24 && minute == 0 && second == 0)
}

/// Days are counted one after the other from the first of January 1970 on, and
/// no month has another day than those of `days_in`.
pub proof fn law_days_are_counted(y: int, m: int, d: int)
    ensures
        day_number(1970, 1, 1) == 0,
        is_date(y, m, d) <==> 1 <= m <= 12 && 1 <= d <= days_in(y, m),
        day_number(y, m, d + 1) == day_number(y, m, d) + 1,
        1 <= m < 12 ==> day_number(y, m + 1, 1) == day_number(y, m, days_in(y, m)) + 1,
        day_number(y + 1, 1, 1) == day_number(y, 12, 31) + 1,
{
    reveal_with_fuel(days_before_month, 14);
    law_year_length(y);
    let common = seq![31int, 28, 31, 30, 31, 30, 31, 31, 30, 31, 30, 31];
    assert(common[0] == 31 && common[1] == 28 && common[2] == 31 && common[3] == 30 && common[4]
        == 31 && common[5] == 30 && common[6] == 31 && common[7] == 31 && common[8] == 30
        && common[9] == 31 && common[10] == 30 && common[11] == 31);
    if 1 <= m <= 12 {
        assert(m == 1 || m == 2 || m == 3 || m == 4 || m == 5 || m == 6 || m == 7 || m == 8 || m
            == 9 || m == 10 || m == 11 || m == 12);
        assert(days_in(y, m) == month_len(y, m));
    }
}

/// What is read of a stamp with what follows it, whatever its parts are.
proof fn lemma_any_stamp(
    y: nat,
    m: nat,
    d: nat,
    sep: char,
    hour: nat,
    minute: nat,
    second: nat,
    tail: Seq<char>,
    e: int,
)
    requires
        y < 10000,
        m < 100,
        d < 100,
        hour < 100,
        minute < 100,
        second < 100,
        fraction_end(stamp(y, m, d, sep, hour, minute, second) + tail) == Some(e),
        ({
            let z = (stamp(y, m, d, sep, hour, minute, second) + tail).skip(e);
            zone_minutes(z) matches Some(n) ==> -1440 < n < 1440
        }),
    ensures
        ({
            let s = stamp(y, m, d, sep, hour, minute, second) + tail;
            unix_time(s) == if there_is(y, m, d, hour, minute, second) && (sep == 'T' || sep == 't'
                || sep == ' ') && zone_minutes(s.skip(e)) is Some {
                from_1970(
                    day_number(y as int, m as int, d as int) * 86400 + hour * 3600 + minute * 60
                        + second - zone_minutes(s.skip(e))->0 * 60,
                )
            } else {
                0
            }
        }),
{
    let s = stamp(y, m, d, sep, hour, minute, second) + tail;
    assert(s[10] == sep);
    law_days_are_counted(y as int, m as int, d as int);
    if is_separator(sep) {
        lemma_stamp(y, m, d, sep, hour, minute, second, tail);
        if is_date(y as int, m as int, d as int) {
            lemma_in_year(y as int, m as int, d as int);
        }
    }
}

/// A timestamp with a fraction of a second behind a point or a comma is read as
/// the time it names if there is such a date and such a time of day, and as zero
/// if not. Between the two stands a `T` or a blank.
pub proof fn law_only_times_are_read(
    y: nat,
    m: nat,
    d: nat,
    sep: char,
    hour: nat,
    minute: nat,
    second: nat,
    mark: char,
    digits: Seq<char>,
)
    requires
        y < 10000,
        m < 100,
        d < 100,
        hour < 100,
        minute < 100,
        second < 100,
        forall|i: int| 0 <= i < digits.len() ==> '0' <= #[trigger] digits[i] <= '9',
    ensures
        ({
            let front = stamp(y, m, d, sep, hour, minute, second);
            let good = there_is(y, m, d, hour, minute, second) && (sep == 'T' || sep == 't' || sep
                == ' ');
            let t = day_number(y as int, m as int, d as int) * 86400 + hour * 3600 + minute * 60
                + second;
            &&& unix_time(front + seq!['Z']) == if good {
                from_1970(t)
            } else {
                0
            }
            &&& unix_time(front + (seq![mark] + digits + seq!['Z'])) == if good && digits.len() > 0
                && (mark == '.' || mark == ',') {
                from_1970(t)
            } else {
                0
            }
        }),
{
    let front = stamp(y, m, d, sep, hour, minute, second);
    let s = front + seq!['Z'];
    assert(s[19] == 'Z');
    assert(s.skip(19) =~= seq!['Z']);
    lemma_any_stamp(y, m, d, sep, hour, minute, second, seq!['Z'], 19);
    let tail = seq![mark] + digits + seq!['Z'];
    let s = front + tail;
    assert(s[19] == mark);
    if mark == '.' || mark == ',' {
        let e = 20 + digits.len() as int;
        assert forall|k: int| 20 <= k < e implies is_digit(#[trigger] s[k]) by {
            assert(s[k] == digits[k - 20]);
        }
        assert(s[e] == 'Z');
        lemma_digits_end(s, 20, e);
        if digits.len() > 0 {
            assert(s.skip(e) =~= seq!['Z']);
            lemma_any_stamp(y, m, d, sep, hour, minute, second, tail, e);
        }
    } else {
        let z = s.skip(19);
        assert(z[0] == mark && z.len() >= 2 && z.last() == 'Z');
        assert(zone_minutes(z) is None) by {
            assert(seq!['Z'].len() == 1 && seq!['z'].len() == 1);
            assert(z[z.len() - 1] == 'Z');
        }
        lemma_any_stamp(y, m, d, sep, hour, minute, second, tail, 19);
    }
}

/// A zone may be written as hours, as hours and minutes, or as hours and minutes
/// with a colon between them. There are no more than 23 hours and 59 minutes.
pub proof fn law_zones(
    y: nat,
    m: nat,
    d: nat,
    hour: nat,
    minute: nat,
    second: nat,
    ahead: bool,
    hours: nat,
    minutes: nat,
)
    requires
        y < 10000,
        m < 100,
        d < 100,
        there_is(y, m, d, hour, minute, second),
        hours < 100,
        minutes < 100,
    ensures
        ({
            let front = stamp(y, m, d, 'T', hour, minute, second);
            let sign = seq![
                if ahead {
                    '+'
                } else {
                    '-'
                },
            ];
            let t = day_number(y as int, m as int, d as int) * 86400 + hour * 3600 + minute * 60
                + second;
            let way = if ahead {
                -1
            } else {
                1int
            };
            let whole = if hours <= 23 {
                from_1970(t + way * (hours * 3600))
            } else {
                0
            };
            let both = if hours <= 23 && minutes <= 59 {
                from_1970(t + way * (hours * 3600 + minutes * 60))
            } else {
                0
            };
            &&& unix_time(front + (sign + two(hours))) == whole
            &&& unix_time(front + (sign + two(hours) + two(minutes))) == both
            &&& unix_time(front + (sign + two(hours) + seq![':'] + two(minutes))) == both
        }),
{
    let front = stamp(y, m, d, 'T', hour, minute, second);
    let c = if ahead {
        '+'
    } else {
        '-'
    };
    lemma_two(hours);
    lemma_two(minutes);
    let a = seq![c] + two(hours);
    let b = seq![c] + two(hours) + two(minutes);
    let e = seq![c] + two(hours) + seq![':'] + two(minutes);
    assert(a[1] == two(hours)[0] && a[2] == two(hours)[1]);
    assert(b[1] == two(hours)[0] && b[2] == two(hours)[1]);
    assert(b[3] == two(minutes)[0] && b[4] == two(minutes)[1]);
    assert(e[1] == two(hours)[0] && e[2] == two(hours)[1]);
    assert(e[4] == two(minutes)[0] && e[5] == two(minutes)[1]);
    assert(seq!['Z'].len() == 1 && seq!['z'].len() == 1);
    assert((front + a)[19] == c && (front + b)[19] == c && (front + e)[19] == c);
    assert((front + a).skip(19) =~= a);
    assert((front + b).skip(19) =~= b);
    assert((front + e).skip(19) =~= e);
    lemma_any_stamp(y, m, d, 'T', hour, minute, second, a, 19);
    lemma_any_stamp(y, m, d, 'T', hour, minute, second, b, 19);
    lemma_any_stamp(y, m, d, 'T', hour, minute, second, e, 19);
}

/// A text is read as zero if it is too short, if a part of it is not written in
/// digits, or if another character than the usual one stands between two parts
/// or behind the last.
pub proof fn law_other_texts_are_zero(s: Seq<char>, i: int)
    ensures
        s.len() < 19 ==> unix_time(s) == 0,
        (i == 4 || i == 7) && s[i] != '-' ==> unix_time(s) == 0,
        (i == 13 || i == 16) && s[i] != ':' ==> unix_time(s) == 0,
        0 <= i < 19 && i != 4 && i != 7 && i != 10 && i != 13 && i != 16 && !('0' <= s[i] <= '9')
            ==> unix_time(s) == 0,
        s.len() > 19 && s[19] != '.' && s[19] != ',' && s[19] != '+' && s[19] != '-' && s[19] != 'Z'
            && s[19] != 'z' ==> unix_time(s) == 0,
{
    if 0 <= i < 19 && has_shape(s) {
        assert(i == 0 || i == 1 || i == 2 || i == 3 || i == 4 || i == 5 || i == 6 || i == 7 || i == 8
            || i == 9 || i == 10 || i == 11 || i == 12 || i == 13 || i == 14 || i == 15 || i == 16
            || i == 17 || i == 18);
    }
    if s.len() > 19 {
        let z = s.skip(19);
        assert(z[0] == s[19]);
        assert(seq!['Z'][0] == 'Z' && seq!['z'][0] == 'z');
    }
}

} // verus!
