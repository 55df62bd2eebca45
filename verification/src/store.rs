//! Where snapshots are stored: one folder per scanned directory, one file per snapshot,
//! named by its timestamp.
use vstd::prelude::*;

use crate::path::{FilePath, Part, PathPart};
use crate::reclaim::ReclaimAction;

verus! {

/// How many snapshots to keep per scanned root.
pub const SNAPSHOTS_PER_ROOT: usize = 20;

/// The name of the file of a snapshot.
pub open spec fn file_name(taken_at: u64) -> Seq<char> {
    crate::decimal::decimal(taken_at as nat) + ".json"@
}

/// A path component with this text as its name.
pub open spec fn named(text: Seq<char>) -> Part {
    Part::Normal(vstd::utf8::encode_utf8(text))
}

/// A path component with this text as its name.
fn name_part(text: &str) -> (r: PathPart)
    ensures
        r@ == named(text@),
{
    PathPart::Normal(text.as_bytes_vec())
}

/// Where the snapshots of a root are kept below the directory `base`: in a folder named
/// by a key of the root, so that every root has its own.
pub fn snapshot_dir(base: &FilePath, root: &str) -> (r: FilePath)
    ensures
        r@ == base@.push(named("snapshots"@)).push(
            named(
                crate::hash::hex(
                    crate::hash::blake3_digest(vstd::utf8::encode_utf8(root@)),
                ).take(16),
            ),
        ),
{
    let key = crate::snapshot::Snapshot::root_key(root);
    dir_of_key(base, key.as_str())
}

/// The folder with this key below `base`.
pub fn dir_of_key(base: &FilePath, key: &str) -> (r: FilePath)
    ensures
        r@ == base@.push(named("snapshots"@)).push(named(key@)),
{
    base.clone().child(name_part("snapshots")).child(name_part(key))
}

/// The file of a snapshot in the folder `dir`.
pub fn snapshot_file(dir: &FilePath, taken_at: u64) -> (r: FilePath)
    ensures
        r@ == dir@.push(named(file_name(taken_at))),
{
    let mut name = crate::decimal::decimal_text(taken_at);
    name.append(".json");
    dir.clone().child(name_part(name.as_str()))
}

/// A decimal digit.
pub open spec fn is_digit(c: char) -> bool {
    '0' <= c <= '9'
}

/// The number that decimal digits stand for.
pub open spec fn digits_value(s: Seq<char>) -> nat
    decreases s.len(),
{
    if s.len() == 0 {
        0
    } else {
        digits_value(s.drop_last()) * 10 + (s.last() as int - '0' as int) as nat
    }
}

/// All characters are decimal digits.
pub open spec fn all_digits(s: Seq<char>) -> bool {
    forall|i: int| 0 <= i < s.len() ==> is_digit(#[trigger] s[i])
}

/// A text without the plus sign that it may start with.
pub open spec fn without_plus(s: Seq<char>) -> Seq<char> {
    if s.len() > 0 && s[0] == '+' {
        s.skip(1)
    } else {
        s
    }
}

/// The number that a text stands for: decimal digits, at least one, perhaps with a plus
/// sign before them, that make up a number of 64 bits.
pub open spec fn number(s: Seq<char>) -> Option<u64> {
    let digits = without_plus(s);
    if digits.len() > 0 && all_digits(digits) && digits_value(digits) <= u64::MAX {
        Some(digits_value(digits) as u64)
    } else {
        None
    }
}

/// The timestamp in the name of a snapshot file.
pub open spec fn time_of(name: Seq<char>) -> Option<u64> {
    if ".json"@.is_suffix_of(name) {
        number(name.take(name.len() - 5))
    } else {
        None
    }
}

/// The value of a digit.
fn digit_of(c: char) -> (r: Option<u64>)
    ensures
        (match r {
            Some(d) => is_digit(c) && d == c as int - '0' as int,
            None => !is_digit(c),
        }),
{
    match c {
        '0' => Some(0),
        '1' => Some(1),
        '2' => Some(2),
        '3' => Some(3),
        '4' => Some(4),
        '5' => Some(5),
        '6' => Some(6),
        '7' => Some(7),
        '8' => Some(8),
        '9' => Some(9),
        _ => None,
    }
}

/// Later digits only make a number larger.
proof fn lemma_value_grows(s: Seq<char>, n: int)
    requires
        all_digits(s),
        0 <= n <= s.len(),
    ensures
        digits_value(s.take(n)) <= digits_value(s),
    decreases s.len() - n,
{
    if n < s.len() {
        lemma_value_grows(s, n + 1);
        assert(s.take(n + 1).drop_last() =~= s.take(n));
        assert(is_digit(s[n]));
    } else {
        assert(s.take(n) =~= s);
    }
}

/// Reads the number that characters `from` to `to` of a text stand for.
fn read_digits(text: &str, from: usize, to: usize) -> (r: Option<u64>)
    requires
        from <= to <= text@.len(),
    ensures
        ({
            let s = text@.subrange(from as int, to as int);
            r == if all_digits(s) && digits_value(s) <= u64::MAX {
                Some(digits_value(s) as u64)
            } else {
                None
            }
        }),
{
    let ghost s = text@.subrange(from as int, to as int);
    let mut value: u64 = 0;
    let mut i: usize = from;
    assert(s.take(0) =~= Seq::<char>::empty());
    while i < to
        invariant
            from <= i <= to <= text@.len(),
            s == text@.subrange(from as int, to as int),
            all_digits(s.take(i - from)),
            value == digits_value(s.take(i - from)),
        decreases to - i,
    {
        let c: char = text.get_char(i);
        let ghost n = i - from;
        proof {
            assert(s[n] == c);
            assert(s.take(n + 1).drop_last() =~= s.take(n));
            assert(s.take(n + 1).last() == c);
        }
        match digit_of(c) {
            None => {
                assert(!is_digit(s[n]));
                return None;
            },
            Some(d) => {
                proof {
                    assert(all_digits(s.take(n + 1))) by {
                        assert forall|j: int| 0 <= j < n + 1 implies is_digit(
                            #[trigger] s.take(n + 1)[j],
                        ) by {
                            if j < n {
                                assert(s.take(n)[j] == s.take(n + 1)[j]);
                            }
                        }
                    }
                    if all_digits(s) {
                        lemma_value_grows(s, n + 1);
                    }
                }
                match value.checked_mul(10) {
                    None => {
                        return None;
                    },
                    Some(v) => match v.checked_add(d) {
                        None => {
                            return None;
                        },
                        Some(v) => {
                            value = v;
                        },
                    },
                }
            },
        }
        i += 1;
    }
    assert(s.take(i - from) =~= s);
    Some(value)
}

/// Reads the timestamp in the name of a snapshot file, if it is one.
pub fn snapshot_time(name: &str) -> (r: Option<u64>)
    ensures
        r == time_of(name@),
{
    proof {
        reveal_strlit(".json");
    }
    let n: usize = name.unicode_len();
    if n < 5 {
        assert(!".json"@.is_suffix_of(name@));
        return None;
    }
    let m: usize = n - 5;
    let ends: bool = name.get_char(m) == '.' && name.get_char(m + 1) == 'j' && name.get_char(m + 2)
        == 's' && name.get_char(m + 3) == 'o' && name.get_char(m + 4) == 'n';
    proof {
        let tail = name@.subrange(m as int, n as int);
        if ends {
            assert(tail =~= ".json"@);
        } else if tail == ".json"@ {
            assert(tail[0] == name@[m as int]);
            assert(tail[1] == name@[m + 1]);
            assert(tail[2] == name@[m + 2]);
            assert(tail[3] == name@[m + 3]);
            assert(tail[4] == name@[m + 4]);
        }
        assert(ends == ".json"@.is_suffix_of(name@)) by {
            assert(name@.subrange(name@.len() - 5, name@.len() as int) == tail);
        }
    }
    if !ends {
        return None;
    }
    let ghost stem = name@.take(m as int);
    if m == 0 {
        assert(stem.len() == 0);
        return None;
    }
    let from: usize = if name.get_char(0) == '+' {
        1
    } else {
        0
    };
    proof {
        assert(stem[0] == name@[0]);
        assert(name@.subrange(from as int, m as int) =~= without_plus(stem));
    }
    if from == m {
        return None;
    }
    read_digits(name, from, m)
}

/// The timestamps in a list of file names.
pub open spec fn times_of(names: Seq<Seq<char>>) -> Seq<u64>
    decreases names.len(),
{
    if names.len() == 0 {
        Seq::empty()
    } else {
        match time_of(names.last()) {
            Some(t) => times_of(names.drop_last()).push(t),
            None => times_of(names.drop_last()),
        }
    }
}

/// Newer timestamps first.
pub open spec fn newer() -> spec_fn(u64, u64) -> bool {
    |a: u64, b: u64| a >= b
}

/// `out` are the timestamps in a list of file names, newest first.
pub open spec fn are_times(names: Seq<Seq<char>>, out: Seq<u64>) -> bool {
    &&& crate::sort::sorted_by(out, newer())
    &&& out.to_multiset() == times_of(names).to_multiset()
}

/// Timestamps of the snapshots among files with these names, newest first.
pub fn snapshot_times(names: &Vec<String>) -> (r: Vec<u64>)
    ensures
        are_times(crate::sort::views(names@), r@),
{
    let ghost all = crate::sort::views(names@);
    let mut times: Vec<u64> = Vec::new();
    let mut i: usize = 0;
    assert(all.take(0) =~= Seq::<Seq<char>>::empty());
    while i < names.len()
        invariant
            i <= names.len(),
            all == crate::sort::views(names@),
            times@ == times_of(all.take(i as int)),
        decreases names.len() - i,
    {
        proof {
            assert(all.take(i + 1).drop_last() =~= all.take(i as int));
            assert(all.take(i + 1).last() == names@[i as int]@);
        }
        match snapshot_time(names[i].as_str()) {
            Some(t) => {
                times.push(t);
            },
            None => {},
        }
        i += 1;
    }
    assert(all.take(i as int) =~= all);
    let f = |a: &u64, b: &u64| -> (r: bool)
        ensures
            r == newer()(a@, b@),
        { *a >= *b };
    let ghost found = times@;
    let r = crate::sort::stable_sort(times, &f, Ghost(newer()));
    proof {
        assert(crate::sort::views(found) =~= found);
        assert(crate::sort::views(r@) =~= r@);
    }
    r
}

/// The snapshots beyond the retention limit, of a list that is newest first.
pub open spec fn beyond_limit(times: Seq<u64>) -> Seq<u64> {
    if times.len() > SNAPSHOTS_PER_ROOT {
        times.skip(SNAPSHOTS_PER_ROOT as int)
    } else {
        Seq::empty()
    }
}

/// The snapshots beyond the retention limit, of a list that is newest first.
pub fn expired(times: &Vec<u64>) -> (r: Vec<u64>)
    ensures
        r@ == beyond_limit(times@),
{
    let mut out: Vec<u64> = Vec::new();
    let mut i: usize = SNAPSHOTS_PER_ROOT;
    while i < times.len()
        invariant
            SNAPSHOTS_PER_ROOT <= i,
            i <= times.len() || (i == SNAPSHOTS_PER_ROOT && out.len() == 0),
            out.len() == i - SNAPSHOTS_PER_ROOT,
            forall|j: int|
                0 <= j < out.len() ==> #[trigger] out@[j] == times@[j + SNAPSHOTS_PER_ROOT],
        decreases times.len() - i,
    {
        out.push(times[i]);
        i += 1;
    }
    assert(out@ =~= beyond_limit(times@));
    out
}

/// Which of the words `delete`, `trash` and `hardlink` names an action.
pub open spec fn action_of(text: Seq<char>) -> Option<ReclaimAction> {
    if text == "delete"@ {
        Some(ReclaimAction::Delete)
    } else if text == "trash"@ {
        Some(ReclaimAction::Trash)
    } else if text == "hardlink"@ {
        Some(ReclaimAction::Hardlink)
    } else {
        None
    }
}

/// The action with this name.
pub fn parse_action(text: &String) -> (r: Result<ReclaimAction, String>)
    ensures
        (match r {
            Ok(action) => action_of(text@) == Some(action),
            Err(e) => action_of(text@) is None && e@ == "unknown action: "@ + text@,
        }),
{
    if *text == "delete".to_owned() {
        return Ok(ReclaimAction::Delete);
    }
    if *text == "trash".to_owned() {
        return Ok(ReclaimAction::Trash);
    }
    if *text == "hardlink".to_owned() {
        return Ok(ReclaimAction::Hardlink);
    }
    let mut e = "unknown action: ".to_owned();
    e.append(text.as_str());
    Err(e)
}

/// The timestamp of a snapshot can be read back from the name of its file.
pub proof fn law_snapshot_names_round_trip(taken_at: u64)
    ensures
        time_of(file_name(taken_at)) == Some(taken_at),
{
    reveal_strlit(".json");
    let n = taken_at as nat;
    let stem = crate::decimal::decimal(n);
    let name = file_name(taken_at);
    lemma_decimal_value(n);
    assert(name.len() == stem.len() + 5);
    assert(name.subrange(name.len() - 5, name.len() as int) =~= ".json"@);
    assert(name.take(name.len() - 5) =~= stem);
    assert(is_digit(stem[0]));
    assert(without_plus(stem) == stem);
}

pub(crate) proof fn lemma_decimal_value(n: nat)
    ensures
        crate::decimal::decimal(n).len() > 0,
        all_digits(crate::decimal::decimal(n)),
        digits_value(crate::decimal::decimal(n)) == n,
    decreases n,
{
    let s = crate::decimal::decimal(n);
    if n < 10 {
        assert(s.drop_last() =~= Seq::<char>::empty());
        assert(digits_value(Seq::<char>::empty()) == 0);
    } else {
        lemma_decimal_value(n / 10);
        assert(s.drop_last() =~= crate::decimal::decimal(n / 10));
        assert forall|i: int| 0 <= i < s.len() implies is_digit(#[trigger] s[i]) by {
            if i < s.len() - 1 {
                assert(s[i] == crate::decimal::decimal(n / 10)[i]);
            }
        }
    }
}

/// Without the expired snapshots, at most as many as the retention limit are left, and
/// none of them is older than one that is expired.
pub proof fn law_newest_snapshots_are_kept(names: Seq<Seq<char>>, times: Seq<u64>)
    requires
        are_times(names, times),
    ensures
        ({
            let left = crate::report::at_most(times, SNAPSHOTS_PER_ROOT as nat);
            let gone = beyond_limit(times);
            &&& times == left + gone
            &&& left.len() <= SNAPSHOTS_PER_ROOT
            &&& forall|i: int, j: int|
                0 <= i < left.len() && 0 <= j < gone.len() ==> #[trigger] left[i]
                    >= #[trigger] gone[j]
        }),
{
    let left = crate::report::at_most(times, SNAPSHOTS_PER_ROOT as nat);
    let gone = beyond_limit(times);
    assert(times =~= left + gone);
    assert forall|i: int, j: int| 0 <= i < left.len() && 0 <= j < gone.len() implies #[trigger] left[i]
        >= #[trigger] gone[j] by {
        assert(newer()(times[i], times[SNAPSHOTS_PER_ROOT + j]));
    }
}

} // verus!
