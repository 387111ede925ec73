//! Laws of dates: a time is shown as the date and the time of day that it is.
use vstd::prelude::*;
use crate::calendar::{day_number, is_date, law_days_round_trip, lemma_in_year, lemma_years_ascend};
use crate::text::{decimal, decimal2};
use crate::timestamp::unix_time;
use crate::timestamp_laws::{fraction, law_timestamp_is_read, stamp};
use crate::xml::{fixdate, fixdate_of, month_name, weekday_name};

verus! {

/// The names of the days of the week, from that of day zero on.
pub open spec fn day_names() -> Seq<char> {
    "ThuFriSatSunMonTueWed"@
}

/// The names of the months.
pub open spec fn month_names() -> Seq<char> {
    "JanFebMarAprMayJunJulAugSepOctNovDec"@
}

/// How a date and a time of day are shown.
pub open spec fn shown_date(
    y: nat,
    m: nat,
    d: nat,
    hour: nat,
    minute: nat,
    second: nat,
) -> Seq<char> {
    let w = day_number(y as int, m as int, d as int) % 7;
    day_names().subrange(3 * w, 3 * w + 3) + ", "@ + decimal2(d) + " "@ + month_names().subrange(
        3 * (m - 1),
        3 * m as int,
    ) + " "@ + decimal(y) + " "@ + decimal2(hour) + ":"@ + decimal2(minute) + ":"@ + decimal2(second)
        + " GMT"@
}

proof fn lemma_weekday(w: int)
    requires
        0 <= w < 7,
    ensures
        weekday_name((w + 4) % 7) == day_names().subrange(3 * w, 3 * w + 3),
{
    reveal_strlit("ThuFriSatSunMonTueWed");
    reveal_strlit("Sun");
    reveal_strlit("Mon");
    reveal_strlit("Tue");
    reveal_strlit("Wed");
    reveal_strlit("Thu");
    reveal_strlit("Fri");
    reveal_strlit("Sat");
    let n = day_names().subrange(3 * w, 3 * w + 3);
    if w == 0 {
        assert("Thu"@ =~= n);
    } else if w == 1 {
        assert("Fri"@ =~= n);
    } else if w == 2 {
        assert("Sat"@ =~= n);
    } else if w == 3 {
        assert("Sun"@ =~= n);
    } else if w == 4 {
        assert("Mon"@ =~= n);
    } else if w == 5 {
        assert("Tue"@ =~= n);
    } else {
        assert("Wed"@ =~= n);
    }
}

proof fn lemma_month(m: int)
    requires
        1 <= m <= 12,
    ensures
        month_name(m) == month_names().subrange(3 * (m - 1), 3 * m),
{
    reveal_strlit("JanFebMarAprMayJunJulAugSepOctNovDec");
    reveal_strlit("Jan");
    reveal_strlit("Feb");
    reveal_strlit("Mar");
    reveal_strlit("Apr");
    reveal_strlit("May");
    reveal_strlit("Jun");
    reveal_strlit("Jul");
    reveal_strlit("Aug");
    reveal_strlit("Sep");
    reveal_strlit("Oct");
    reveal_strlit("Nov");
    reveal_strlit("Dec");
    let n = month_names().subrange(3 * (m - 1), 3 * m);
    if m == 1 {
        assert("Jan"@ =~= n);
    } else if m == 2 {
        assert("Feb"@ =~= n);
    } else if m == 3 {
        assert("Mar"@ =~= n);
    } else if m == 4 {
        assert("Apr"@ =~= n);
    } else if m == 5 {
        assert("May"@ =~= n);
    } else if m == 6 {
        assert("Jun"@ =~= n);
    } else if m == 7 {
        assert("Jul"@ =~= n);
    } else if m == 8 {
        assert("Aug"@ =~= n);
    } else if m == 9 {
        assert("Sep"@ =~= n);
    } else if m == 10 {
        assert("Oct"@ =~= n);
    } else if m == 11 {
        assert("Nov"@ =~= n);
    } else {
        assert("Dec"@ =~= n);
    }
}

/// The time of a date and a time of day is shown as that date and that time of
/// day, with the day of the week: day zero was a Thursday.
pub proof fn law_date_is_shown(y: nat, m: nat, d: nat, hour: nat, minute: nat, second: nat)
    requires
        y >= 1970,
        is_date(y as int, m as int, d as int),
        hour < 24,
        minute < 60,
        second < 60,
    ensures
        day_number(y as int, m as int, d as int) >= 0,
        fixdate(
            (day_number(y as int, m as int, d as int) * 86400 + hour * 3600 + minute * 60
                + second) as nat,
        ) == shown_date(y, m, d, hour, minute, second),
{
    let z = day_number(y as int, m as int, d as int);
    lemma_in_year(y as int, m as int, d as int);
    if y > 1970 {
        lemma_years_ascend(1970, y as int);
    }
    assert(z >= 0);
    law_days_round_trip(z, y as int, m as int, d as int);
    let t = z * 86400 + hour * 3600 + minute * 60 + second;
    assert(t / 86400 == z);
    assert(t / 3600 == z * 24 + hour);
    assert((z * 24 + hour) % 24 == hour);
    assert(t / 60 == (z * 24 + hour) * 60 + minute);
    assert(((z * 24 + hour) * 60 + minute) % 60 == minute);
    assert(t % 60 == second) by {
        assert(t == (z * 1440 + hour * 60 + minute) * 60 + second);
    }
    assert((z + 4) % 7 == (z % 7 + 4) % 7);
    lemma_weekday(z % 7);
    lemma_month(m as int);
    let w = (z + 4) % 7;
    assert(fixdate(t as nat) == fixdate_of(w, d, m as int, y, hour, minute, second));
    assert(fixdate_of(w, d, m as int, y, hour, minute, second) =~= shown_date(
        y,
        m,
        d,
        hour,
        minute,
        second,
    ));
}

/// What Graph writes as a timestamp is shown as the date that it names.
pub proof fn law_timestamp_is_shown(
    y: nat,
    m: nat,
    d: nat,
    hour: nat,
    minute: nat,
    second: nat,
    digits: Seq<char>,
)
    requires
        1970 <= y <= 9999,
        is_date(y as int, m as int, d as int),
        hour < 24,
        minute < 60,
        second < 60,
        forall|i: int| 0 <= i < digits.len() ==> crate::timestamp::is_digit(#[trigger] digits[i]),
    ensures
        fixdate(
            unix_time(
                stamp(y, m, d, 'T', hour, minute, second) + fraction(digits) + seq!['Z'],
            ) as nat,
        ) == shown_date(y, m, d, hour, minute, second),
{
    law_timestamp_is_read(y, m, d, 'T', hour, minute, second, digits, true, 0, 0);
    law_date_is_shown(y, m, d, hour, minute, second);
}

} // verus!
