//! Dates in the proleptic Gregorian calendar.
use vstd::prelude::*;

verus! {

/// Whether the year has a 29th of February.
pub open spec fn is_leap(y: int) -> bool {
    y % 4 == 0 && (y % 100 != 0 || y % 400 == 0)
}

/// One in leap years, zero in others.
pub open spec fn leap(y: int) -> int {
    if is_leap(y) {
        1
    } else {
        0
    }
}

/// The days of a month.
pub open spec fn month_len(y: int, m: int) -> int {
    if m == 2 {
        28 + leap(y)
    } else if m == 4 || m == 6 || m == 9 || m == 11 {
        30
    } else {
        31
    }
}

/// The days of a year before its month `m`.
pub open spec fn days_before_month(y: int, m: int) -> int
    decreases m,
{
    if m <= 1 {
        0
    } else {
        days_before_month(y, m - 1) + month_len(y, m - 1)
    }
}

/// The days from 1970-01-01 to the first day of a year.
pub open spec fn days_before_year(y: int) -> int {
    365 * (y - 1970) + ((y - 1) / 4 - (y - 1) / 100 + (y - 1) / 400) - 477
}

/// The days from 1970-01-01 to a date.
pub open spec fn day_number(y: int, m: int, d: int) -> int {
    days_before_year(y) + days_before_month(y, m) + (d - 1)
}

/// The date exists.
pub open spec fn is_date(y: int, m: int, d: int) -> bool {
    1 <= m <= 12 && 1 <= d <= month_len(y, m)
}

/// Years follow each other: 1970 starts at day zero, and every year takes as many days
/// as its months do.
pub proof fn law_years_follow_each_other(y: int)
    ensures
        days_before_year(1970) == 0,
        days_before_year(y + 1) == days_before_year(y) + days_before_month(y, 13),
        days_before_month(y, 13) == 365 + leap(y),
{
    reveal_with_fuel(days_before_month, 14);
    lemma_leaps(y);
}

/// The leap years up to and including `y`, counted two ways.
proof fn lemma_leaps(y: int)
    ensures
        y / 4 - y / 100 + y / 400 == (y - 1) / 4 - (y - 1) / 100 + (y - 1) / 400 + leap(y),
{
    assert(y / 4 == (y - 1) / 4 + if y % 4 == 0 {
        1int
    } else {
        0
    });
    assert(y / 100 == (y - 1) / 100 + if y % 100 == 0 {
        1int
    } else {
        0
    });
    assert(y / 400 == (y - 1) / 400 + if y % 400 == 0 {
        1int
    } else {
        0
    });
    if y % 100 == 0 {
        assert(y % 4 == 0);
    }
    if y % 400 == 0 {
        assert(y % 100 == 0);
    }
}

/// Later dates have larger day numbers.
pub proof fn law_day_numbers_follow_dates(y: int, m: int, d: int, y2: int, m2: int, d2: int)
    requires
        is_date(y, m, d),
        is_date(y2, m2, d2),
        y < y2 || (y == y2 && (m < m2 || (m == m2 && d < d2))),
    ensures
        day_number(y, m, d) < day_number(y2, m2, d2),
{
    lemma_in_year(y, m, d);
    lemma_in_year(y2, m2, d2);
    if y < y2 {
        lemma_year_order(y + 1, y2);
        law_years_follow_each_other(y);
    } else if m < m2 {
        lemma_month_order(y, m + 1, m2);
    }
}

/// No two dates have the same day number.
pub proof fn law_day_numbers_are_unique(y: int, m: int, d: int, y2: int, m2: int, d2: int)
    requires
        is_date(y, m, d),
        is_date(y2, m2, d2),
        day_number(y, m, d) == day_number(y2, m2, d2),
    ensures
        y == y2,
        m == m2,
        d == d2,
{
    if y < y2 || (y == y2 && (m < m2 || (m == m2 && d < d2))) {
        law_day_numbers_follow_dates(y, m, d, y2, m2, d2);
    } else if y2 < y || (y2 == y && (m2 < m || (m2 == m && d2 < d))) {
        law_day_numbers_follow_dates(y2, m2, d2, y, m, d);
    }
}

proof fn lemma_in_year(y: int, m: int, d: int)
    requires
        is_date(y, m, d),
    ensures
        0 <= days_before_month(y, m) + (d - 1) < days_before_month(y, 13),
{
    lemma_month_order(y, 1, m);
    lemma_month_order(y, m + 1, 13);
}

proof fn lemma_month_order(y: int, a: int, b: int)
    requires
        1 <= a <= b,
    ensures
        days_before_month(y, a) <= days_before_month(y, b),
    decreases b - a,
{
    if a < b {
        lemma_month_order(y, a, b - 1);
    }
}

proof fn lemma_year_order(a: int, b: int)
    requires
        a <= b,
    ensures
        days_before_year(a) <= days_before_year(b),
    decreases b - a,
{
    if a < b {
        lemma_year_order(a, b - 1);
        law_years_follow_each_other(b - 1);
    }
}

/// Where a day of a 400-year era lies: the year of the era, which starts in March, and
/// the day of that year.
proof fn lemma_year_of_era(doe: int)
    requires
        0 <= doe < 146_097,
    ensures
        ({
            let yoe = (doe - doe / 1460 + doe / 36_524 - doe / 146_096) / 365;
            let doy = doe - (365 * yoe + yoe / 4 - yoe / 100);
            &&& 0 <= yoe < 400
            &&& 0 <= doy <= 364 + leap(yoe + 1)
        }),
{
    let c = if doe / 36_524 < 3 {
        doe / 36_524
    } else {
        3
    };
    let in_century = doe - 36_524 * c;
    assert(0 <= in_century <= 36_524);
    assert(in_century == 36_524 ==> c == 3);
    let q = in_century / 1461;
    let in_four = in_century - 1461 * q;
    assert(0 <= q <= 24);
    assert(0 <= in_four <= 1460);
    let k = if in_four / 365 < 3 {
        in_four / 365
    } else {
        3
    };
    let rest = in_four - 365 * k;
    assert(0 <= rest <= 365);
    assert(rest == 365 ==> k == 3 && in_four == 1460);
    let t: int = if 24 * c + q + in_four >= 1460 {
        1
    } else {
        0
    };
    assert(doe == 1460 * (25 * c + q) + (24 * c + q + in_four));
    assert(doe / 1460 == 25 * c + q + t);
    assert(doe / 36_524 - doe / 146_096 == c);
    let y = 100 * c + 4 * q + k;
    let n = doe - doe / 1460 + doe / 36_524 - doe / 146_096;
    assert(n == 365 * y + (rest - t));
    assert(0 <= rest - t <= 364);
    assert(n / 365 == y);
    assert(y / 4 == 25 * c + q);
    assert(y / 100 == c);
    assert(doe - (365 * y + y / 4 - y / 100) == rest);
    if rest == 365 {
        assert(y + 1 == 100 * c + 4 * q + 4);
        assert((y + 1) % 4 == 0);
        if (y + 1) % 100 == 0 {
            assert(q == 24);
            assert(in_century == 36_524);
            assert(y + 1 == 400);
        }
    }
}

/// The first day of the month that is `mp` months after March, counted from the
/// first of March.
spec fn march_offset(mp: int) -> int {
    (153 * mp + 2) / 5
}

proof fn lemma_march_offsets()
    ensures
        march_offset(0) == 0,
        march_offset(1) == 31,
        march_offset(2) == 61,
        march_offset(3) == 92,
        march_offset(4) == 122,
        march_offset(5) == 153,
        march_offset(6) == 184,
        march_offset(7) == 214,
        march_offset(8) == 245,
        march_offset(9) == 275,
        march_offset(10) == 306,
        march_offset(11) == 337,
{
}

/// The month of a day of a year that starts in March.
proof fn lemma_march_month(doy: int)
    requires
        0 <= doy <= 365,
    ensures
        ({
            let mp = (5 * doy + 2) / 153;
            &&& 0 <= mp <= 11
            &&& march_offset(mp) <= doy
            &&& mp < 11 ==> doy < march_offset(mp + 1)
        }),
{
    lemma_march_offsets();
    let mp = (5 * doy + 2) / 153;
    assert(153 * mp <= 5 * doy + 2 < 153 * mp + 153);
    assert(0 <= mp <= 11);
}

/// Where the months of a year start.
proof fn lemma_months(y: int)
    ensures
        days_before_month(y, 1) == 0,
        days_before_month(y, 2) == 31,
        days_before_month(y, 3) == 59 + leap(y),
        days_before_month(y, 4) == 90 + leap(y),
        days_before_month(y, 5) == 120 + leap(y),
        days_before_month(y, 6) == 151 + leap(y),
        days_before_month(y, 7) == 181 + leap(y),
        days_before_month(y, 8) == 212 + leap(y),
        days_before_month(y, 9) == 243 + leap(y),
        days_before_month(y, 10) == 273 + leap(y),
        days_before_month(y, 11) == 304 + leap(y),
        days_before_month(y, 12) == 334 + leap(y),
{
    reveal_with_fuel(days_before_month, 13);
}

/// The first of March, counted from the start of an era.
proof fn lemma_first_of_march(era: int, yoe: int)
    requires
        0 <= yoe < 400,
    ensures
        ({
            let y = yoe + era * 400;
            &&& days_before_year(y) + 59 + leap(y) == era * 146_097 + (365 * yoe + yoe / 4 - yoe
                / 100) - 719_468
            &&& days_before_year(y + 1) == days_before_year(y) + 365 + leap(y)
            &&& leap(y + 1) == leap(yoe + 1)
        }),
{
    let y = yoe + era * 400;
    vstd::arithmetic::div_mod::lemma_hoist_over_denominator(yoe, 100 * era, 4);
    vstd::arithmetic::div_mod::lemma_hoist_over_denominator(yoe, 4 * era, 100);
    vstd::arithmetic::div_mod::lemma_hoist_over_denominator(yoe, era, 400);
    vstd::arithmetic::div_mod::lemma_mod_multiples_vanish(100 * era, yoe + 1, 4);
    vstd::arithmetic::div_mod::lemma_mod_multiples_vanish(4 * era, yoe + 1, 100);
    vstd::arithmetic::div_mod::lemma_mod_multiples_vanish(era, yoe + 1, 400);
    assert(y / 4 == 100 * era + yoe / 4);
    assert(y / 100 == 4 * era + yoe / 100);
    assert(y / 400 == era);
    lemma_leaps(y);
}

/// The day number of a day of a year that starts in March.
proof fn lemma_march_year(era: int, yoe: int, doy: int)
    requires
        0 <= yoe < 400,
        0 <= doy <= 364 + leap(yoe + 1),
    ensures
        ({
            let mp = (5 * doy + 2) / 153;
            let d = doy - (153 * mp + 2) / 5 + 1;
            let m = if mp < 10 {
                mp + 3
            } else {
                mp - 9
            };
            let y = yoe + era * 400 + if m <= 2 {
                1int
            } else {
                0
            };
            &&& 0 <= mp <= 11
            &&& is_date(y, m, d)
            &&& day_number(y, m, d) == era * 146_097 + (365 * yoe + yoe / 4 - yoe / 100) + doy
                - 719_468
        }),
{
    let mp = (5 * doy + 2) / 153;
    let y = yoe + era * 400;
    lemma_march_month(doy);
    lemma_march_offsets();
    lemma_first_of_march(era, yoe);
    lemma_months(y);
    lemma_months(y + 1);
    assert(march_offset(mp) == (153 * mp + 2) / 5);
    if mp < 10 {
        assert(days_before_month(y, mp + 3) == 59 + leap(y) + march_offset(mp));
    } else {
        assert(days_before_month(y + 1, mp - 9) == march_offset(mp) - 306);
    }
}

/// Days since 1970-01-01 to a proleptic Gregorian (year, month, day).
pub fn civil_from_days(days: i64) -> (r: (i64, u32, u32))
    requires
        days <= i64::MAX - 719_468,
    ensures
        is_date(r.0 as int, r.1 as int, r.2 as int),
        day_number(r.0 as int, r.1 as int, r.2 as int) == days,
{
    let z: i64 = days + 719_468;
    let era: i64 = if z >= 0 {
        z / 146_097
    } else {
        -((-z + 146_096) / 146_097)
    };
    let doe: i64 = z - era * 146_097;
    let yoe: i64 = (doe - doe / 1460 + doe / 36_524 - doe / 146_096) / 365;
    proof {
        lemma_year_of_era(doe as int);
    }
    let doy: i64 = doe - (365 * yoe + yoe / 4 - yoe / 100);
    proof {
        lemma_march_year(era as int, yoe as int, doy as int);
    }
    let mp: i64 = (5 * doy + 2) / 153;
    let day: u32 = (doy - (153 * mp + 2) / 5 + 1) as u32;
    let month: u32 = if mp < 10 {
        (mp + 3) as u32
    } else {
        (mp - 9) as u32
    };
    let year: i64 = yoe + era * 400 + if month <= 2 {
        1
    } else {
        0
    };
    (year, month, day)
}

/// The date with a day number.
pub open spec fn date_of(n: int) -> (int, int, int) {
    choose|t: (int, int, int)| #[trigger]
        is_date(t.0, t.1, t.2) && day_number(t.0, t.1, t.2) == n
}

/// Every day from 1970 on has a date.
pub(crate) proof fn lemma_date_of(n: int)
    requires
        n >= 0,
    ensures
        is_date(date_of(n).0, date_of(n).1, date_of(n).2),
        day_number(date_of(n).0, date_of(n).1, date_of(n).2) == n,
{
    let z = n + 719_468;
    let era = z / 146_097;
    let doe = z % 146_097;
    let yoe = (doe - doe / 1460 + doe / 36_524 - doe / 146_096) / 365;
    let doy = doe - (365 * yoe + yoe / 4 - yoe / 100);
    lemma_year_of_era(doe);
    lemma_march_year(era, yoe, doy);
    let mp = (5 * doy + 2) / 153;
    let d = doy - (153 * mp + 2) / 5 + 1;
    let m = if mp < 10 {
        mp + 3
    } else {
        mp - 9
    };
    let y = yoe + era * 400 + if m <= 2 {
        1int
    } else {
        0
    };
    let t = (y, m, d);
    assert(is_date(t.0, t.1, t.2));
}

/// A date and a time of day as `YYYY-MM-DD HH:MM UTC`.
pub open spec fn stamp(date: (int, int, int), hour: nat, minute: nat) -> Seq<char> {
    crate::decimal::zero_padded(date.0 as nat, 4) + "-"@ + crate::decimal::zero_padded(
        date.1 as nat,
        2,
    ) + "-"@ + crate::decimal::zero_padded(date.2 as nat, 2) + " "@ + crate::decimal::zero_padded(
        hour,
        2,
    ) + ":"@ + crate::decimal::zero_padded(minute, 2) + " UTC"@
}

/// A Unix timestamp as `YYYY-MM-DD HH:MM UTC`.
pub open spec fn timestamp_text(secs: u64) -> Seq<char> {
    let rem = secs % 86_400;
    stamp(
        date_of(secs as int / 86_400),
        (rem / 3600) as nat,
        ((rem % 3600) / 60) as nat,
    )
}

/// Render a Unix timestamp as `YYYY-MM-DD HH:MM UTC`.
pub fn format_timestamp(secs: u64) -> (r: String)
    ensures
        r@ == timestamp_text(secs),
{
    let days: i64 = (secs / 86_400) as i64;
    let rem: u64 = secs % 86_400;
    let (y, m, d) = civil_from_days(days);
    proof {
        let t = (y as int, m as int, d as int);
        let c = date_of(days as int);
        assert(is_date(t.0, t.1, t.2));
        law_day_numbers_are_unique(t.0, t.1, t.2, c.0, c.1, c.2);
        lemma_in_year(t.0, t.1, t.2);
        if y < 1970 {
            lemma_year_order(y + 1, 1970);
            law_years_follow_each_other(y as int);
        }
    }
    let mut out = crate::decimal::zero_pad(y as u64, 4);
    out.append("-");
    out.append(crate::decimal::zero_pad(m as u64, 2).as_str());
    out.append("-");
    out.append(crate::decimal::zero_pad(d as u64, 2).as_str());
    out.append(" ");
    out.append(crate::decimal::zero_pad(rem / 3600, 2).as_str());
    out.append(":");
    out.append(crate::decimal::zero_pad((rem % 3600) / 60, 2).as_str());
    out.append(" UTC");
    out
}

/// The time of a snapshot: the seconds since the Unix epoch, or zero where the clock
/// stands before it.
pub fn now_unix(since_epoch: Option<u64>) -> (r: u64)
    ensures
        r == (match since_epoch {
            Some(secs) => secs,
            None => 0,
        }),
{
    match since_epoch {
        Some(secs) => secs,
        None => 0,
    }
}

} // verus!
