//! How numbers, sizes, dates and file names are written and read.
use vstd::prelude::*;

use crate::path::Part;
use crate::reclaim::ReclaimAction;

verus! {

/// A number is written digit by digit: one below ten as its digit, and any other as what is
/// left of it without its last digit, followed by that digit.
pub proof fn law_numbers_are_written_digit_by_digit(n: nat, d: nat)
    requires
        d < 10,
    ensures
        crate::decimal::decimal(d).len() == 1,
        crate::decimal::decimal(d)[0] as int == '0' as int + d,
        n > 0 ==> crate::decimal::decimal(10 * n + d) == crate::decimal::decimal(n)
            + crate::decimal::decimal(d),
{
    if n > 0 {
        assert((10 * n + d) / 10 == n);
        assert((10 * n + d) % 10 == d);
        assert(crate::decimal::decimal(10 * n + d) =~= crate::decimal::decimal(n)
            + crate::decimal::decimal(d));
    }
}

/// Filling a text up from the left keeps its end, puts nothing but the filler before it, and
/// makes it exactly as wide as asked for, unless it is wider already.
pub proof fn law_filling_up_keeps_the_text(s: Seq<char>, c: char, width: nat)
    ensures
        ({
            let t = crate::decimal::pad_left(s, c, width);
            &&& t.len() == if s.len() < width {
                width
            } else {
                s.len()
            }
            &&& s.is_suffix_of(t)
            &&& forall|i: int| 0 <= i < t.len() - s.len() ==> #[trigger] t[i] == c
        }),
{
    let t = crate::decimal::pad_left(s, c, width);
    assert(t.subrange(t.len() - s.len(), t.len() as int) =~= s);
}

/// A number with leading zeros is the number, filled up to the width.
pub proof fn law_leading_zeros_keep_the_number(n: nat, width: nat)
    ensures
        ({
            let t = crate::decimal::zero_padded(n, width);
            let plain = crate::decimal::decimal(n);
            &&& t.len() == if plain.len() < width {
                width
            } else {
                plain.len()
            }
            &&& plain.is_suffix_of(t)
            &&& forall|i: int| 0 <= i < t.len() - plain.len() ==> #[trigger] t[i] == '0'
        }),
{
    law_filling_up_keeps_the_text(crate::decimal::decimal(n), '0', width);
}

/// The nearest whole number is no further than half away, and even where two are equally near.
pub proof fn law_rounding_is_to_the_nearest(n: nat, d: nat)
    requires
        d > 0,
    ensures
        ({
            let q = crate::size::nearest(n, d);
            &&& 2 * n - d <= 2 * q * d <= 2 * n + d
            &&& 2 * q * d == 2 * n - d || 2 * q * d == 2 * n + d ==> q % 2 == 0
        }),
{
    let q = n / d;
    let r = n % d;
    vstd::arithmetic::div_mod::lemma_fundamental_div_mod(n as int, d as int);
    assert(0 <= r < d);
    assert(2 * q * d == 2 * (d * q)) by (nonlinear_arith);
    assert(2 * (q + 1) * d == 2 * (d * q) + 2 * d) by (nonlinear_arith);
    assert((q + q % 2) % 2 == 0);
}

/// Sizes below 2^53 are taken as they are. Larger ones are rounded to the nearest number of 53
/// binary digits, to the even one of two.
pub proof fn law_sizes_are_rounded_to_53_digits(n: nat)
    ensures
        n < 0x20_0000_0000_0000 ==> crate::size::rounded(n) == n,
        n >= 0x20_0000_0000_0000 ==> exists|e: nat, q: nat|
            #![trigger times(q, vstd::arithmetic::power2::pow2(e))]
            {
                let gap = vstd::arithmetic::power2::pow2(e);
                &&& crate::size::rounded(n) == times(q, gap)
                &&& gap * 0x10_0000_0000_0000 <= n < gap * 0x20_0000_0000_0000
                &&& 2 * n - gap <= 2 * times(q, gap) <= 2 * n + gap
                &&& 2 * times(q, gap) == 2 * n - gap || 2 * times(q, gap) == 2 * n + gap ==> q % 2
                    == 0
            },
{
    if n < 0x20_0000_0000_0000 {
        assert(n / 1 == n && n % 1 == 0);
        assert(crate::size::nearest(n, 1) == n);
        assert(n * 1 == n) by (nonlinear_arith);
    } else {
        let e = lemma_spacing(n);
        let gap = vstd::arithmetic::power2::pow2(e);
        vstd::arithmetic::power2::lemma_pow2_pos(e);
        let q = crate::size::nearest(n, gap);
        law_rounding_is_to_the_nearest(n, gap);
        assert(2 * q * gap == 2 * times(q, gap)) by (nonlinear_arith);
        assert(crate::size::rounded(n) == times(q, gap));
    }
}

/// The product.
pub open spec fn times(a: nat, b: nat) -> nat {
    a * b
}

proof fn lemma_spacing(n: nat) -> (e: nat)
    requires
        n >= 0x10_0000_0000_0000,
    ensures
        crate::size::spacing(n) == vstd::arithmetic::power2::pow2(e),
        vstd::arithmetic::power2::pow2(e) * 0x10_0000_0000_0000 <= n,
        n < vstd::arithmetic::power2::pow2(e) * 0x20_0000_0000_0000,
    decreases n,
{
    vstd::arithmetic::power2::lemma2_to64();
    if n < 0x20_0000_0000_0000 {
        0
    } else {
        let e = lemma_spacing(n / 2);
        vstd::arithmetic::power2::lemma_pow2_unfold(e + 1);
        e + 1
    }
}

/// Below 1024, a size is shown in bytes.
pub proof fn law_small_sizes_are_shown_in_bytes(bytes: u64)
    requires
        bytes < 1024,
    ensures
        crate::size::human_text(bytes) == crate::decimal::decimal(bytes as nat) + " B"@,
{
    law_sizes_are_rounded_to_53_digits(bytes as nat);
    reveal_strlit(" ");
    reveal_strlit("B");
    reveal_strlit(" B");
    assert(crate::decimal::decimal(bytes as nat) + " "@ + "B"@ =~= crate::decimal::decimal(
        bytes as nat,
    ) + " B"@);
}

/// From 1024 on, a size is shown in the largest of the units KB, MB, GB, TB and PB, each 1024
/// times the one before, that is not above it, with one decimal: the nearest tenth, and the even
/// one of two. It is the size itself below 2^53, and rounded to 53 binary digits from there on.
pub proof fn law_sizes_are_shown_to_the_nearest_tenth(bytes: u64)
    requires
        bytes >= 1024,
    ensures
        ({
            let size = crate::size::rounded(bytes as nat);
            let (unit, name) = if size < 1024 * 1024 {
                (1024nat, " KB"@)
            } else if size < 1024 * 1024 * 1024 {
                (1024 * 1024nat, " MB"@)
            } else if size < 1024 * 1024 * 1024 * 1024 {
                (1024 * 1024 * 1024nat, " GB"@)
            } else if size < 1024 * 1024 * 1024 * 1024 * 1024 {
                (1024 * 1024 * 1024 * 1024nat, " TB"@)
            } else {
                (1024 * 1024 * 1024 * 1024 * 1024nat, " PB"@)
            };
            exists|tenths: nat|
                {
                    &&& crate::size::human_text(bytes) == #[trigger] crate::decimal::decimal(
                        tenths / 10,
                    ) + "."@ + crate::decimal::decimal(tenths % 10) + name
                    &&& 20 * size - unit <= 2 * tenths * unit <= 20 * size + unit
                    &&& 2 * tenths * unit == 20 * size - unit || 2 * tenths * unit == 20 * size
                        + unit ==> tenths % 2 == 0
                }
        }),
{
    let n = bytes as nat;
    let size = crate::size::rounded(n);
    law_sizes_are_rounded_to_53_digits(n);
    assert(size >= 1024) by {
        if n >= 0x20_0000_0000_0000 {
            let (e, q) = choose|e: nat, q: nat|
                #![trigger times(q, vstd::arithmetic::power2::pow2(e))]
                {
                    let gap = vstd::arithmetic::power2::pow2(e);
                    &&& crate::size::rounded(n) == times(q, gap)
                    &&& gap * 0x10_0000_0000_0000 <= n < gap * 0x20_0000_0000_0000
                    &&& 2 * n - gap <= 2 * times(q, gap) <= 2 * n + gap
                };
            assert(2 * n - vstd::arithmetic::power2::pow2(e) <= 2 * size);
        }
    }
    let index = crate::size::unit_of(size);
    let unit = crate::size::unit_bytes(index);
    let tenths = crate::size::nearest(size * 10, unit);
    law_rounding_is_to_the_nearest(size * 10, unit);
    reveal_strlit(" ");
    reveal_strlit("KB");
    reveal_strlit("MB");
    reveal_strlit("GB");
    reveal_strlit("TB");
    reveal_strlit("PB");
    reveal_strlit(" KB");
    reveal_strlit(" MB");
    reveal_strlit(" GB");
    reveal_strlit(" TB");
    reveal_strlit(" PB");
    let name = crate::size::unit_name(index);
    let digits = crate::decimal::decimal(tenths / 10) + "."@ + crate::decimal::decimal(tenths % 10);
    assert(crate::size::human_text(bytes) == digits + " "@ + name);
    assert(index == 1 ==> digits + " "@ + name =~= digits + " KB"@);
    assert(index == 2 ==> digits + " "@ + name =~= digits + " MB"@);
    assert(index == 3 ==> digits + " "@ + name =~= digits + " GB"@);
    assert(index == 4 ==> digits + " "@ + name =~= digits + " TB"@);
    assert(index == 5 ==> digits + " "@ + name =~= digits + " PB"@);
}

/// Months have the days that they have: every fourth year February has one more, but for years
/// that close a century, unless it is every fourth of those.
pub proof fn law_months_have_their_days(y: int)
    ensures
        crate::calendar::month_len(y, 1) == 31,
        crate::calendar::month_len(y, 2) == if y % 400 == 0 {
            29int
        } else if y % 100 == 0 {
            28
        } else if y % 4 == 0 {
            29
        } else {
            28
        },
        crate::calendar::month_len(y, 3) == 31,
        crate::calendar::month_len(y, 4) == 30,
        crate::calendar::month_len(y, 5) == 31,
        crate::calendar::month_len(y, 6) == 30,
        crate::calendar::month_len(y, 7) == 31,
        crate::calendar::month_len(y, 8) == 31,
        crate::calendar::month_len(y, 9) == 30,
        crate::calendar::month_len(y, 10) == 31,
        crate::calendar::month_len(y, 11) == 30,
        crate::calendar::month_len(y, 12) == 31,
{
    lemma_every_fourth_century(y);
}

proof fn lemma_every_fourth_century(y: int)
    ensures
        y % 400 == 0 ==> y % 4 == 0,
{
    vstd::arithmetic::div_mod::lemma_mod_mod(y, 4, 100);
}

/// Days are counted one by one from the first of January 1970: the day after a day has the
/// next number, across the ends of months and years.
pub proof fn law_days_are_counted_one_by_one(y: int, m: int, d: int)
    requires
        1 <= m <= 12,
        1 <= d <= crate::calendar::month_len(y, m),
    ensures
        crate::calendar::day_number(1970, 1, 1) == 0,
        d < crate::calendar::month_len(y, m) ==> crate::calendar::is_date(y, m, d + 1)
            && crate::calendar::day_number(y, m, d + 1) == crate::calendar::day_number(y, m, d) + 1,
        d == crate::calendar::month_len(y, m) && m < 12 ==> crate::calendar::is_date(y, m + 1, 1)
            && crate::calendar::day_number(y, m + 1, 1) == crate::calendar::day_number(y, m, d) + 1,
        d == crate::calendar::month_len(y, m) && m == 12 ==> crate::calendar::is_date(y + 1, 1, 1)
            && crate::calendar::day_number(y + 1, 1, 1) == crate::calendar::day_number(y, m, d) + 1,
        crate::calendar::is_date(y, m, d),
        !crate::calendar::is_date(y, m, crate::calendar::month_len(y, m) + 1),
        !crate::calendar::is_date(y, m, 0),
        !crate::calendar::is_date(y, 0, d),
        !crate::calendar::is_date(y, 13, d),
{
    crate::calendar::law_years_follow_each_other(y);
    law_months_have_their_days(y);
}

/// A time is shown as its day, written as year, month and day, and its hour and minute in that
/// day, with leading zeros.
pub proof fn law_a_time_is_shown_by_day_and_minute(secs: u64, y: int, m: int, d: int)
    requires
        crate::calendar::is_date(y, m, d),
        crate::calendar::day_number(y, m, d) == secs as int / 86_400,
    ensures
        crate::calendar::timestamp_text(secs) == crate::decimal::zero_padded(y as nat, 4) + "-"@
            + crate::decimal::zero_padded(m as nat, 2) + "-"@ + crate::decimal::zero_padded(
            d as nat,
            2,
        ) + " "@ + crate::decimal::zero_padded((secs as int / 3600 % 24) as nat, 2) + ":"@
            + crate::decimal::zero_padded((secs as int / 60 % 60) as nat, 2) + " UTC"@,
{
    let date = crate::calendar::date_of(secs as int / 86_400);
    let t = (y, m, d);
    assert(crate::calendar::is_date(t.0, t.1, t.2));
    crate::calendar::law_day_numbers_are_unique(date.0, date.1, date.2, y, m, d);
    let s = secs as int;
    assert(s % 86_400 / 3600 == s / 3600 % 24);
    assert(s % 86_400 % 3600 / 60 == s / 60 % 60);
}

/// A number is read digit by digit, as far as it fits; a plus sign may stand before it, and
/// anything else is no number.
pub proof fn law_numbers_are_read_digit_by_digit(s: Seq<char>, c: char)
    ensures
        crate::store::number(Seq::empty()) is None,
        crate::store::number(seq!['+']) is None,
        s.len() > 0 && s[0] != '+' ==> crate::store::number(seq!['+'] + s) == crate::store::number(s),
        s.len() > 0 && s[0] == '+' ==> crate::store::number(seq!['+'] + s) is None,
        '0' <= c <= '9' ==> crate::store::number(seq![c]) == Some((c as int - '0' as int) as u64),
        !('0' <= c <= '9') ==> crate::store::number(s.push(c)) is None,
        crate::store::number(s) is Some && '0' <= c <= '9' ==> crate::store::number(s.push(c)) == {
            let v = crate::store::number(s)->0 * 10 + (c as int - '0' as int);
            if v <= u64::MAX {
                Some(v as u64)
            } else {
                None
            }
        },
        crate::store::number(s) is None && s.len() > 0 && s != seq!['+']
            ==> crate::store::number(s.push(c)) is None,
{
    let none = Seq::<char>::empty();
    assert(crate::store::without_plus(seq!['+']) =~= none);
    assert((seq!['+'] + s).skip(1) =~= s);
    if s.len() > 0 && s[0] == '+' {
        assert(!crate::store::is_digit(s[0]));
    }
    let one = seq![c];
    assert(one.drop_last() =~= none);
    assert(crate::store::digits_value(none) == 0);
    assert(one.skip(1) =~= none);
    let digits = crate::store::without_plus(s);
    let more = crate::store::without_plus(s.push(c));
    assert(more.len() > 0 ==> more.last() == c);
    if s.len() > 0 {
        assert(more =~= digits.push(c));
        assert(more.drop_last() =~= digits);
        assert(more.last() == c);
        assert forall|i: int| 0 <= i < digits.len() implies #[trigger] more[i] == digits[i] by {}
        if crate::store::all_digits(more) {
            assert forall|i: int| 0 <= i < digits.len() implies crate::store::is_digit(
                #[trigger] digits[i],
            ) by {
                assert(crate::store::is_digit(more[i]));
            }
            assert(crate::store::is_digit(more[more.len() - 1]));
        }
        if crate::store::all_digits(digits) && crate::store::is_digit(c) {
            assert(crate::store::all_digits(more));
        }
        if digits.len() == 0 {
            assert(s =~= seq!['+']);
        }
    } else {
        assert(s.push(c) =~= one);
        if crate::store::all_digits(more) && more.len() > 0 {
            assert(crate::store::is_digit(more[0]));
        }
    }
    if '0' <= c <= '9' {
        assert(crate::store::without_plus(one) == one);
        assert(crate::store::all_digits(one));
    }
}

/// A snapshot file is named by its time with `.json` behind it, and only files that end that
/// way have one.
pub proof fn law_snapshot_files_end_in_json(stem: Seq<char>, name: Seq<char>, taken_at: u64)
    ensures
        crate::store::time_of(stem + ".json"@) == crate::store::number(stem),
        !".json"@.is_suffix_of(name) ==> crate::store::time_of(name) is None,
        crate::store::file_name(taken_at) == crate::decimal::decimal(taken_at as nat) + ".json"@,
{
    reveal_strlit(".json");
    let full = stem + ".json"@;
    assert(full.subrange(full.len() - 5, full.len() as int) =~= ".json"@);
    assert(full.take(full.len() - 5) =~= stem);
}

/// The times of snapshots are newest first, and every file that has one counts.
pub proof fn law_the_newest_snapshots_come_first(
    names: Seq<Seq<char>>,
    out: Seq<u64>,
    t: u64,
)
    requires
        crate::store::are_times(names, out),
    ensures
        forall|i: int, j: int| 0 <= i < j < out.len() ==> #[trigger] out[i] >= #[trigger] out[j],
        out.to_multiset().count(t) == names.filter(
            |name: Seq<char>| crate::store::time_of(name) == Some(t),
        ).len(),
{
    assert forall|i: int, j: int| 0 <= i < j < out.len() implies #[trigger] out[i]
        >= #[trigger] out[j] by {
        assert(crate::store::newer()(out[i], out[j]));
    }
    lemma_times(names, t, |name: Seq<char>| crate::store::time_of(name) == Some(t));
}

proof fn lemma_times(names: Seq<Seq<char>>, t: u64, has: spec_fn(Seq<char>) -> bool)
    requires
        forall|name: Seq<char>| #[trigger] has(name) <==> crate::store::time_of(name) == Some(t),
    ensures
        crate::store::times_of(names).to_multiset().count(t) == names.filter(has).len(),
    decreases names.len(),
{
    broadcast use vstd::seq_lib::group_to_multiset_ensures;

    reveal(Seq::filter);
    if names.len() > 0 {
        lemma_times(names.drop_last(), t, has);
        assert(has(names.last()) <==> crate::store::time_of(names.last()) == Some(t));
    }
}

/// Twenty snapshots are kept, the newest ones; the others expire.
pub proof fn law_twenty_snapshots_are_kept(times: Seq<u64>)
    ensures
        times.len() <= 20 ==> crate::store::beyond_limit(times).len() == 0,
        times.len() > 20 ==> crate::store::beyond_limit(times) == times.subrange(
            20,
            times.len() as int,
        ),
{
}

/// Three words name an action, each its own, and no other word does.
pub proof fn law_actions_have_names(text: Seq<char>)
    ensures
        crate::store::action_of(text) == Some(ReclaimAction::Delete) <==> text == "delete"@,
        crate::store::action_of(text) == Some(ReclaimAction::Trash) <==> text == "trash"@,
        crate::store::action_of(text) == Some(ReclaimAction::Hardlink) <==> text == "hardlink"@,
        crate::store::action_of(text) is None <==> text != "delete"@ && text != "trash"@ && text
            != "hardlink"@,
{
    reveal_strlit("delete");
    reveal_strlit("trash");
    reveal_strlit("hardlink");
    assert("delete"@.len() == 6 && "trash"@.len() == 5 && "hardlink"@.len() == 8);
}

/// The first block of a file is its first 4096 bytes, or all of them if there are fewer.
pub proof fn law_the_first_block_has_4096_bytes(head: Seq<u8>)
    ensures
        ({
            let block = crate::report::at_most(head, crate::hash::PREFIX_LEN as nat);
            &&& block.is_prefix_of(head)
            &&& block.len() == if head.len() < 4096 {
                head.len()
            } else {
                4096
            }
        }),
{
}

/// A text names the component that is spelled by its bytes.
pub proof fn law_names_are_spelled_by_their_bytes(text: Seq<char>)
    ensures
        crate::store::named(text) == Part::Normal(vstd::utf8::encode_utf8(text)),
{
}

} // verus!
