//! What timestamps promise: up to the year 9999 they all have the same shape, can be read
//! back, and are ordered as the times are.
use vstd::prelude::*;

verus! {

/// The last second of the year 9999.
pub const LAST_SECOND: u64 = 253_402_300_799;

/// Text `a` comes before text `b` in the order of their characters.
pub open spec fn text_before(a: Seq<char>, b: Seq<char>) -> bool
    decreases a.len(),
{
    if b.len() == 0 {
        false
    } else if a.len() == 0 {
        true
    } else {
        a[0] < b[0] || (a[0] == b[0] && text_before(a.drop_first(), b.drop_first()))
    }
}

/// The number in a part of a text.
pub open spec fn number_at(t: Seq<char>, from: int, to: int) -> int {
    crate::store::digits_value(t.subrange(from, to)) as int
}

/// `t` has the shape `YYYY-MM-DD HH:MM UTC`.
pub open spec fn is_stamp(t: Seq<char>) -> bool {
    &&& t.len() == 20
    &&& crate::store::all_digits(t.subrange(0, 4))
    &&& t[4] == '-'
    &&& crate::store::all_digits(t.subrange(5, 7))
    &&& t[7] == '-'
    &&& crate::store::all_digits(t.subrange(8, 10))
    &&& t[10] == ' '
    &&& crate::store::all_digits(t.subrange(11, 13))
    &&& t[13] == ':'
    &&& crate::store::all_digits(t.subrange(14, 16))
    &&& t.subrange(16, 20) == " UTC"@
}

proof fn lemma_before_same(a: Seq<char>)
    ensures
        !text_before(a, a),
    decreases a.len(),
{
    if a.len() > 0 {
        lemma_before_same(a.drop_first());
    }
}

/// Texts that begin with parts of the same length are ordered by these first.
proof fn lemma_before_join(a: Seq<char>, x: Seq<char>, b: Seq<char>, y: Seq<char>)
    requires
        a.len() == b.len(),
    ensures
        text_before(a + x, b + y) == (text_before(a, b) || (a == b && text_before(x, y))),
    decreases a.len(),
{
    if a.len() == 0 {
        assert(a + x =~= x);
        assert(b + y =~= y);
        assert(a =~= b);
    } else {
        let a1 = a.drop_first();
        let b1 = b.drop_first();
        assert((a + x).drop_first() =~= a1 + x);
        assert((b + y).drop_first() =~= b1 + y);
        lemma_before_join(a1, x, b1, y);
        if a[0] == b[0] && a1 == b1 {
            assert(a =~= seq![a[0]] + a1);
            assert(b =~= seq![b[0]] + b1);
        }
    }
}

/// Numbers of the same number of digits are ordered as their texts are.
proof fn lemma_before_digits(a: Seq<char>, b: Seq<char>)
    requires
        a.len() == b.len(),
        crate::store::all_digits(a),
        crate::store::all_digits(b),
    ensures
        text_before(a, b) == (crate::store::digits_value(a) < crate::store::digits_value(b)),
        (a == b) == (crate::store::digits_value(a) == crate::store::digits_value(b)),
    decreases a.len(),
{
    if a.len() == 0 {
        assert(a =~= b);
    } else {
        let n = a.len() - 1;
        let a1 = a.drop_last();
        let b1 = b.drop_last();
        let c = seq![a[n]];
        let d = seq![b[n]];
        assert(crate::store::is_digit(a[n]) && crate::store::is_digit(b[n]));
        assert forall|i: int| 0 <= i < n implies crate::store::is_digit(#[trigger] a1[i]) by {
            assert(crate::store::is_digit(a[i]));
        }
        assert forall|i: int| 0 <= i < n implies crate::store::is_digit(#[trigger] b1[i]) by {
            assert(crate::store::is_digit(b[i]));
        }
        lemma_before_digits(a1, b1);
        assert(a =~= a1 + c);
        assert(b =~= b1 + d);
        lemma_before_join(a1, c, b1, d);
        assert(text_before(c, d) == (a[n] < b[n])) by {
            assert(c.drop_first().len() == 0);
            assert(!text_before(c.drop_first(), d.drop_first()));
        }
        assert(a1 == b1 && a[n] == b[n] ==> a == b);
    }
}

/// Leading zeros do not change a number.
proof fn lemma_leading_zeros(k: nat, s: Seq<char>)
    requires
        crate::store::all_digits(s),
    ensures
        crate::store::all_digits(crate::decimal::repeated('0', k) + s),
        crate::store::digits_value(crate::decimal::repeated('0', k) + s)
            == crate::store::digits_value(s),
    decreases k + s.len(),
{
    let z = crate::decimal::repeated('0', k);
    let t = z + s;
    assert forall|i: int| 0 <= i < t.len() implies crate::store::is_digit(#[trigger] t[i]) by {
        if i >= k {
            assert(crate::store::is_digit(s[i - k]));
        }
    }
    if s.len() > 0 {
        let s1 = s.drop_last();
        assert forall|i: int| 0 <= i < s1.len() implies crate::store::is_digit(#[trigger] s1[i]) by {
            assert(crate::store::is_digit(s[i]));
        }
        lemma_leading_zeros(k, s1);
        assert(t.drop_last() =~= z + s1);
    } else if k > 0 {
        lemma_leading_zeros((k - 1) as nat, s);
        assert(t.drop_last() =~= crate::decimal::repeated('0', (k - 1) as nat) + s);
    } else {
        assert(t =~= s);
    }
}

/// A number that is small enough takes up exactly the width, and can be read back.
proof fn lemma_padded(n: nat, width: nat)
    requires
        (width == 2 && n < 100) || (width == 4 && n < 10_000),
    ensures
        crate::decimal::zero_padded(n, width).len() == width,
        crate::store::all_digits(crate::decimal::zero_padded(n, width)),
        crate::store::digits_value(crate::decimal::zero_padded(n, width)) == n,
{
    let s = crate::decimal::decimal(n);
    crate::store::lemma_decimal_value(n);
    assert(s.len() <= width) by {
        reveal_with_fuel(crate::decimal::decimal, 5);
    }
    if s.len() < width {
        lemma_leading_zeros((width - s.len()) as nat, s);
    }
}

/// The date and time of day in a timestamp up to the year 9999.
proof fn lemma_fields(secs: u64)
    requires
        secs <= LAST_SECOND,
    ensures
        ({
            let t = crate::calendar::date_of(secs as int / 86_400);
            &&& crate::calendar::is_date(t.0, t.1, t.2)
            &&& crate::calendar::day_number(t.0, t.1, t.2) == secs as int / 86_400
            &&& 1970 <= t.0 <= 9999
            &&& 1 <= t.1 <= 12
            &&& 1 <= t.2 <= 31
        }),
{
    let n = secs as int / 86_400;
    crate::calendar::lemma_date_of(n);
    let t = crate::calendar::date_of(n);
    reveal_with_fuel(crate::calendar::days_before_month, 14);
    assert(crate::calendar::day_number(9999, 12, 31) == 2_932_896);
    assert(crate::calendar::day_number(1970, 1, 1) == 0);
    if t.0 > 9999 {
        crate::calendar::law_day_numbers_follow_dates(9999, 12, 31, t.0, t.1, t.2);
    }
    if t.0 < 1970 {
        crate::calendar::law_day_numbers_follow_dates(t.0, t.1, t.2, 1970, 1, 1);
    }
}

/// The year of a timestamp as text.
spec fn year_text(secs: u64) -> Seq<char> {
    crate::decimal::zero_padded(crate::calendar::date_of(secs as int / 86_400).0 as nat, 4)
}

/// The month of a timestamp as text.
spec fn month_text(secs: u64) -> Seq<char> {
    crate::decimal::zero_padded(crate::calendar::date_of(secs as int / 86_400).1 as nat, 2)
}

/// The day of a timestamp as text.
spec fn day_text(secs: u64) -> Seq<char> {
    crate::decimal::zero_padded(crate::calendar::date_of(secs as int / 86_400).2 as nat, 2)
}

/// The hour of a timestamp as text.
spec fn hour_text(secs: u64) -> Seq<char> {
    crate::decimal::zero_padded((secs as int % 86_400 / 3600) as nat, 2)
}

/// The minute of a timestamp as text.
spec fn minute_text(secs: u64) -> Seq<char> {
    crate::decimal::zero_padded((secs as int % 86_400 % 3600 / 60) as nat, 2)
}

/// A timestamp, put together from its parts.
proof fn lemma_parts(secs: u64)
    requires
        secs <= LAST_SECOND,
    ensures
        crate::calendar::timestamp_text(secs) == year_text(secs) + ("-"@ + (month_text(secs) + ("-"@
            + (day_text(secs) + (" "@ + (hour_text(secs) + (":"@ + (minute_text(secs)
            + " UTC"@)))))))),
        year_text(secs).len() == 4,
        month_text(secs).len() == 2,
        day_text(secs).len() == 2,
        hour_text(secs).len() == 2,
        minute_text(secs).len() == 2,
        crate::store::all_digits(year_text(secs)),
        crate::store::all_digits(month_text(secs)),
        crate::store::all_digits(day_text(secs)),
        crate::store::all_digits(hour_text(secs)),
        crate::store::all_digits(minute_text(secs)),
        crate::store::digits_value(year_text(secs)) == crate::calendar::date_of(
            secs as int / 86_400,
        ).0,
        crate::store::digits_value(month_text(secs)) == crate::calendar::date_of(
            secs as int / 86_400,
        ).1,
        crate::store::digits_value(day_text(secs)) == crate::calendar::date_of(
            secs as int / 86_400,
        ).2,
        crate::store::digits_value(hour_text(secs)) == secs as int % 86_400 / 3600,
        crate::store::digits_value(minute_text(secs)) == secs as int % 86_400 % 3600 / 60,
{
    lemma_fields(secs);
    let t = crate::calendar::date_of(secs as int / 86_400);
    lemma_padded(t.0 as nat, 4);
    lemma_padded(t.1 as nat, 2);
    lemma_padded(t.2 as nat, 2);
    lemma_padded((secs as int % 86_400 / 3600) as nat, 2);
    lemma_padded((secs as int % 86_400 % 3600 / 60) as nat, 2);
    let rem = secs % 86_400;
    assert((rem / 3600) as nat == (secs as int % 86_400 / 3600) as nat);
    assert(((rem % 3600) / 60) as nat == (secs as int % 86_400 % 3600 / 60) as nat);
    assert(crate::calendar::timestamp_text(secs) =~= year_text(secs) + ("-"@ + (month_text(secs)
        + ("-"@ + (day_text(secs) + (" "@ + (hour_text(secs) + (":"@ + (minute_text(secs)
        + " UTC"@)))))))));
}

/// Up to the year 9999 a timestamp has 20 characters in the shape `YYYY-MM-DD HH:MM UTC`,
/// and its numbers are the date and the time of day of its minute.
pub proof fn law_timestamps_read_back(secs: u64)
    requires
        secs <= LAST_SECOND,
    ensures
        ({
            let t = crate::calendar::timestamp_text(secs);
            let y = number_at(t, 0, 4);
            let m = number_at(t, 5, 7);
            let d = number_at(t, 8, 10);
            let h = number_at(t, 11, 13);
            let min = number_at(t, 14, 16);
            &&& is_stamp(t)
            &&& crate::calendar::is_date(y, m, d)
            &&& 0 <= h < 24
            &&& 0 <= min < 60
            &&& crate::calendar::day_number(y, m, d) * 86_400 + h * 3600 + min * 60 == secs - secs
                % 60
        }),
{
    lemma_parts(secs);
    lemma_fields(secs);
    reveal_strlit("-");
    reveal_strlit(" ");
    reveal_strlit(":");
    reveal_strlit(" UTC");
    let t = crate::calendar::timestamp_text(secs);
    assert(t.subrange(0, 4) =~= year_text(secs));
    assert(t.subrange(5, 7) =~= month_text(secs));
    assert(t.subrange(8, 10) =~= day_text(secs));
    assert(t.subrange(11, 13) =~= hour_text(secs));
    assert(t.subrange(14, 16) =~= minute_text(secs));
    assert(t.subrange(16, 20) =~= " UTC"@);
}

/// Two texts with a number and the same separator in front are ordered by the number first.
proof fn lemma_before_field(
    a: Seq<char>,
    x: Seq<char>,
    b: Seq<char>,
    y: Seq<char>,
    sep: Seq<char>,
)
    requires
        a.len() == b.len(),
        crate::store::all_digits(a),
        crate::store::all_digits(b),
    ensures
        text_before(a + (sep + x), b + (sep + y)) == (crate::store::digits_value(a)
            < crate::store::digits_value(b) || (crate::store::digits_value(a)
            == crate::store::digits_value(b) && text_before(x, y))),
{
    lemma_before_join(a, sep + x, b, sep + y);
    lemma_before_join(sep, x, sep, y);
    lemma_before_same(sep);
    lemma_before_digits(a, b);
}

/// Up to the year 9999, timestamps are ordered as texts as the times are by their minutes,
/// and are the same text exactly in the same minute.
pub proof fn law_timestamps_are_ordered(a: u64, b: u64)
    requires
        a <= LAST_SECOND,
        b <= LAST_SECOND,
    ensures
        text_before(crate::calendar::timestamp_text(a), crate::calendar::timestamp_text(b)) <==> a
            / 60 < b / 60,
        (crate::calendar::timestamp_text(a) == crate::calendar::timestamp_text(b)) <==> a / 60 == b
            / 60,
{
    lemma_parts(a);
    lemma_parts(b);
    lemma_fields(a);
    lemma_fields(b);
    let utc = " UTC"@;
    let none = Seq::<char>::empty();
    let a5 = minute_text(a) + utc;
    let b5 = minute_text(b) + utc;
    let a4 = hour_text(a) + (":"@ + a5);
    let b4 = hour_text(b) + (":"@ + b5);
    let a3 = day_text(a) + (" "@ + a4);
    let b3 = day_text(b) + (" "@ + b4);
    let a2 = month_text(a) + ("-"@ + a3);
    let b2 = month_text(b) + ("-"@ + b3);
    assert(utc + none =~= utc);
    lemma_before_field(minute_text(a), none, minute_text(b), none, utc);
    lemma_before_same(none);
    lemma_before_field(hour_text(a), a5, hour_text(b), b5, ":"@);
    lemma_before_field(day_text(a), a4, day_text(b), b4, " "@);
    lemma_before_field(month_text(a), a3, month_text(b), b3, "-"@);
    lemma_before_field(year_text(a), a2, year_text(b), b2, "-"@);
    let s = crate::calendar::date_of(a as int / 86_400);
    let t = crate::calendar::date_of(b as int / 86_400);
    let earlier = s.0 < t.0 || (s.0 == t.0 && (s.1 < t.1 || (s.1 == t.1 && s.2 < t.2)));
    let later = t.0 < s.0 || (t.0 == s.0 && (t.1 < s.1 || (t.1 == s.1 && t.2 < s.2)));
    if earlier {
        crate::calendar::law_day_numbers_follow_dates(s.0, s.1, s.2, t.0, t.1, t.2);
    } else if later {
        crate::calendar::law_day_numbers_follow_dates(t.0, t.1, t.2, s.0, s.1, s.2);
    }
    lemma_minutes(a);
    lemma_minutes(b);
    if a / 60 == b / 60 {
        assert(a as int / 86_400 == b as int / 86_400);
    } else {
        lemma_before_same(crate::calendar::timestamp_text(a));
        if crate::calendar::timestamp_text(a) == crate::calendar::timestamp_text(b) {
            lemma_one_way(a, b);
        }
    }
}

/// The minutes of a time are those of its days, hours and minutes.
proof fn lemma_minutes(a: u64)
    ensures
        a / 60 == (a as int / 86_400) * 1440 + (a as int % 86_400 / 3600) * 60 + (a as int % 86_400
            % 3600 / 60),
        0 <= a as int % 86_400 / 3600 < 24,
        0 <= a as int % 86_400 % 3600 / 60 < 60,
{
}

/// Timestamps of different minutes differ.
proof fn lemma_one_way(a: u64, b: u64)
    requires
        a <= LAST_SECOND,
        b <= LAST_SECOND,
        crate::calendar::timestamp_text(a) == crate::calendar::timestamp_text(b),
    ensures
        a / 60 == b / 60,
{
    law_timestamps_read_back(a);
    law_timestamps_read_back(b);
}

} // verus!
