//! Dates.
use diskghost::calendar::{civil_from_days, format_timestamp, now_unix};

#[test]
fn days_become_dates() {
    assert_eq!(civil_from_days(0), (1970, 1, 1));
    assert_eq!(civil_from_days(-1), (1969, 12, 31));
    assert_eq!(civil_from_days(59), (1970, 3, 1));
    assert_eq!(civil_from_days(11_016), (2000, 2, 29));
    assert_eq!(civil_from_days(-719_468), (0, 3, 1));
    assert_eq!(civil_from_days(-719_469), (0, 2, 29));
    assert_eq!(civil_from_days(-719_528), (0, 1, 1));
    assert_eq!(civil_from_days(-719_529), (-1, 12, 31));
    assert_eq!(civil_from_days(47_540), (2100, 2, 28));
    assert_eq!(civil_from_days(47_541), (2100, 3, 1));
}

#[test]
fn every_day_has_its_own_date() {
    let lengths = [31, 28, 31, 30, 31, 30, 31, 31, 30, 31, 30, 31];
    let (mut y, mut m, mut d) = civil_from_days(-800_000);
    for day in -799_999i64..800_000 {
        let leap = y % 4 == 0 && (y % 100 != 0 || y % 400 == 0);
        let len = if m == 2 && leap { 29 } else { lengths[m as usize - 1] };
        d += 1;
        if d > len {
            d = 1;
            m += 1;
        }
        if m > 12 {
            m = 1;
            y += 1;
        }
        assert_eq!(civil_from_days(day), (y, m, d));
    }
}

#[test]
fn far_timestamps_still_render() {
    assert_eq!(format_timestamp(253_402_300_800), "10000-01-01 00:00 UTC");
    assert_eq!(format_timestamp(u64::MAX), "584554051223-11-09 07:00 UTC");
}

#[test]
fn timestamps_sort_like_times_and_read_back() {
    let times = [0u64, 59, 60, 3_599, 86_399, 86_400, 951_782_400, 1_700_000_000, 253_402_300_799];
    let mut before: Option<(u64, String)> = None;
    for t in times {
        let text = format_timestamp(t);
        assert_eq!(text.len(), 20);
        let n = |from: usize, to: usize| text[from..to].parse::<i64>().unwrap();
        let (y, m, d) = civil_from_days((t / 86_400) as i64);
        assert_eq!((n(0, 4), n(5, 7), n(8, 10)), (y, m as i64, d as i64));
        assert_eq!(n(11, 13) * 60 + n(14, 16), (t % 86_400 / 60) as i64);
        if let Some((earlier, shown)) = before {
            assert_eq!(shown < text, earlier / 60 < t / 60);
        }
        before = Some((t, text));
    }
    assert_eq!(format_timestamp(253_402_300_799), "9999-12-31 23:59 UTC");
}

#[test]
fn a_clock_before_the_epoch_counts_as_the_epoch() {
    assert_eq!(now_unix(Some(12)), 12);
    assert_eq!(now_unix(None), 0);
}
