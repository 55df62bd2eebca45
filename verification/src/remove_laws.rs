//! What a removal takes away, and what is reported of it.
use vstd::prelude::*;

use crate::path::Part;
use crate::remove::{FileOutcome, RemovalRec, RemoveEntryRec, RemoveOutcome, RemovePlan};
use crate::shown::Style;

verus! {

/// The lengths of files are summed up.
pub proof fn law_lengths_are_summed_up(lens: Seq<u64>)
    ensures
        crate::remove::total_len(lens) == lens.fold_left(0int, |sum: int, n: u64| sum + n),
    decreases lens.len(),
{
    if lens.len() > 0 {
        law_lengths_are_summed_up(lens.drop_last());
    }
}

/// A number that does not fit is reported as the largest one that does; any other as it is.
pub proof fn law_numbers_that_fit_are_reported_as_they_are(n: nat)
    ensures
        n <= u64::MAX ==> crate::remove::capped(n) == n,
        n > u64::MAX ==> crate::remove::capped(n) == u64::MAX,
{
}

/// The bytes of the files that were unlinked are summed up: one that was unlinked counts with
/// its length, and one that was not does not count.
pub proof fn law_unlinked_bytes_are_summed_up(lens: Seq<u64>, outcomes: Seq<FileOutcome>)
    requires
        lens.len() == outcomes.len(),
    ensures
        crate::remove::unlinked_len(lens, outcomes) == Seq::new(lens.len(), |i: int| i).fold_left(
            0int,
            |sum: int, i: int|
                if outcomes[i] is Removed {
                    sum + lens[i]
                } else {
                    sum
                },
        ),
{
    let sum_up = |sum: int, i: int|
        if outcomes[i] is Removed {
            sum + lens[i]
        } else {
            sum
        };
    lemma_unlinked(lens, outcomes, outcomes.len(), sum_up);
    assert(outcomes.take(outcomes.len() as int) =~= outcomes);
}

proof fn lemma_unlinked(
    lens: Seq<u64>,
    outcomes: Seq<FileOutcome>,
    n: nat,
    sum_up: spec_fn(int, int) -> int,
)
    requires
        n <= lens.len() == outcomes.len(),
        forall|sum: int, i: int|
            0 <= i < outcomes.len() ==> #[trigger] sum_up(sum, i) == if outcomes[i] is Removed {
                sum + lens[i]
            } else {
                sum
            },
    ensures
        crate::remove::unlinked_len(lens, outcomes.take(n as int)) == Seq::new(
            n,
            |i: int| i,
        ).fold_left(0int, sum_up),
    decreases n,
{
    let now = Seq::new(n, |i: int| i);
    if n > 0 {
        let m = (n - 1) as nat;
        lemma_unlinked(lens, outcomes, m, sum_up);
        assert(now.drop_last() =~= Seq::new(m, |i: int| i));
        assert(now.last() == m);
        assert(outcomes.take(n as int).drop_last() =~= outcomes.take(m as int));
        assert(outcomes.take(n as int)[m as int] == outcomes[m as int]);
    }
}

/// The bytes of the files that were unlinked and of those that were not are all the bytes that
/// were found. Where everything was unlinked, a removal frees what its dry run announced.
pub proof fn law_unlinked_and_left_bytes_are_all(lens: Seq<u64>, outcomes: Seq<FileOutcome>)
    requires
        lens.len() == outcomes.len(),
    ensures
        crate::remove::unlinked_len(lens, outcomes) + Seq::new(lens.len(), |i: int| i).fold_left(
            0int,
            |sum: int, i: int|
                if outcomes[i] is Removed {
                    sum
                } else {
                    sum + lens[i]
                },
        ) == lens.fold_left(0int, |sum: int, n: u64| sum + n),
        (forall|i: int| 0 <= i < outcomes.len() ==> #[trigger] outcomes[i] is Removed)
            ==> crate::remove::unlinked_len(lens, outcomes) == crate::remove::total_len(lens),
{
    law_lengths_are_summed_up(lens);
    let left = |sum: int, i: int|
        if outcomes[i] is Removed {
            sum
        } else {
            sum + lens[i]
        };
    lemma_left(lens, outcomes, lens.len(), left);
    assert(outcomes.take(lens.len() as int) =~= outcomes);
    assert(lens.take(lens.len() as int) =~= lens);
    if forall|i: int| 0 <= i < outcomes.len() ==> #[trigger] outcomes[i] is Removed {
        lemma_all_unlinked(lens, outcomes);
    }
}

proof fn lemma_left(
    lens: Seq<u64>,
    outcomes: Seq<FileOutcome>,
    n: nat,
    left: spec_fn(int, int) -> int,
)
    requires
        n <= lens.len() == outcomes.len(),
        forall|sum: int, i: int|
            0 <= i < outcomes.len() ==> #[trigger] left(sum, i) == if outcomes[i] is Removed {
                sum
            } else {
                sum + lens[i]
            },
    ensures
        crate::remove::unlinked_len(lens, outcomes.take(n as int)) + Seq::new(
            n,
            |i: int| i,
        ).fold_left(0int, left) == crate::remove::total_len(lens.take(n as int)),
    decreases n,
{
    let now = Seq::new(n, |i: int| i);
    if n > 0 {
        let m = (n - 1) as nat;
        lemma_left(lens, outcomes, m, left);
        assert(now.drop_last() =~= Seq::new(m, |i: int| i));
        assert(now.last() == m);
        assert(outcomes.take(n as int).drop_last() =~= outcomes.take(m as int));
        assert(outcomes.take(n as int)[m as int] == outcomes[m as int]);
        assert(lens.take(n as int).drop_last() =~= lens.take(m as int));
    }
}

proof fn lemma_all_unlinked(lens: Seq<u64>, outcomes: Seq<FileOutcome>)
    requires
        lens.len() == outcomes.len(),
        forall|i: int| 0 <= i < outcomes.len() ==> #[trigger] outcomes[i] is Removed,
    ensures
        crate::remove::unlinked_len(lens, outcomes) == crate::remove::total_len(lens),
    decreases lens.len(),
{
    if lens.len() > 0 {
        let n = lens.len() - 1;
        lemma_unlinked_of(lens, outcomes.drop_last());
        assert forall|i: int| 0 <= i < n implies #[trigger] outcomes.drop_last()[i] is Removed by {
            assert(outcomes[i] is Removed);
        }
        lemma_all_unlinked(lens.drop_last(), outcomes.drop_last());
        assert(outcomes[n] is Removed);
    }
}

/// Only the lengths of the files that were tried matter.
proof fn lemma_unlinked_of(lens: Seq<u64>, outcomes: Seq<FileOutcome>)
    requires
        outcomes.len() < lens.len(),
    ensures
        crate::remove::unlinked_len(lens, outcomes) == crate::remove::unlinked_len(
            lens.drop_last(),
            outcomes,
        ),
    decreases outcomes.len(),
{
    if outcomes.len() > 0 {
        lemma_unlinked_of(lens, outcomes.drop_last());
    }
}

/// What counts as removed. Deleting counts what was unlinked; moving to the trash counts
/// everything or, where it failed, nothing; and a dry run counts everything.
pub proof fn law_what_was_removed_is_counted(found: RemovalRec, outcome: RemoveOutcome)
    ensures
        outcome is Nothing ==> {
            &&& crate::remove::files_removed(found, outcome) == found.files.len()
            &&& crate::remove::dirs_removed(found, outcome) == found.dirs.len()
            &&& crate::remove::bytes_freed(found, outcome) == found.lens.fold_left(
                0int,
                |sum: int, n: u64| sum + n,
            )
        },
        outcome is Trashed && outcome->0 is Ok ==> {
            &&& crate::remove::files_removed(found, outcome) == found.files.len()
            &&& crate::remove::dirs_removed(found, outcome) == found.dirs.len()
            &&& crate::remove::bytes_freed(found, outcome) == found.lens.fold_left(
                0int,
                |sum: int, n: u64| sum + n,
            )
        },
        outcome is Trashed && outcome->0 is Err ==> {
            &&& crate::remove::files_removed(found, outcome) == 0
            &&& crate::remove::dirs_removed(found, outcome) == 0
            &&& crate::remove::bytes_freed(found, outcome) == 0
        },
        outcome is Deleted ==> {
            &&& crate::remove::files_removed(found, outcome) == outcome->files@.filter(
                |o: FileOutcome| o is Removed,
            ).len()
            &&& crate::remove::dirs_removed(found, outcome) == outcome->levels@.fold_left(
                0int,
                |sum: int, level: Vec<Result<(), String>>|
                    sum + level@.filter(|o: Result<(), String>| o is Ok).len(),
            )
        },
        outcome is Deleted && found.lens.len() == outcome->files@.len()
            ==> crate::remove::bytes_freed(found, outcome) == Seq::new(
            found.lens.len(),
            |i: int| i,
        ).fold_left(
            0int,
            |sum: int, i: int|
                if outcome->files@[i] is Removed {
                    sum + found.lens[i]
                } else {
                    sum
                },
        ),
{
    law_lengths_are_summed_up(found.lens);
    if outcome is Deleted {
        let levels = outcome->levels@;
        let sum_up = |sum: int, level: Vec<Result<(), String>>|
            sum + level@.filter(|o: Result<(), String>| o is Ok).len();
        lemma_dirs(levels, sum_up);
        if found.lens.len() == outcome->files@.len() {
            let outcomes = outcome->files@;
            let up = |sum: int, i: int|
                if outcome->files@[i] is Removed {
                    sum + found.lens[i]
                } else {
                    sum
                };
            lemma_unlinked(found.lens, outcomes, outcomes.len(), up);
            assert(outcomes.take(outcomes.len() as int) =~= outcomes);
        }
    }
}

proof fn lemma_dirs(
    levels: Seq<Vec<Result<(), String>>>,
    sum_up: spec_fn(int, Vec<Result<(), String>>) -> int,
)
    requires
        forall|sum: int, level: Vec<Result<(), String>>| #[trigger]
            sum_up(sum, level) == sum + level@.filter(|o: Result<(), String>| o is Ok).len(),
    ensures
        crate::remove::dirs_taken_down(levels) == levels.fold_left(0int, sum_up),
    decreases levels.len(),
{
    if levels.len() > 0 {
        lemma_dirs(levels.drop_last(), sum_up);
    }
}

/// An entry that was enumerated is one more directory, or one more file with its length, or
/// nothing if it could not be read.
pub proof fn law_entries_are_taken_in_one_by_one(found: RemovalRec, e: RemoveEntryRec)
    ensures
        found.with(e).dirs == if e is Dir {
            found.dirs.push(e->0)
        } else {
            found.dirs
        },
        found.with(e).files == if e is Other {
            found.files.push(e->path)
        } else {
            found.files
        },
        found.with(e).lens == if e is Other {
            found.lens.push(
                if e->len is Some {
                    e->len->0
                } else {
                    0
                },
            )
        } else {
            found.lens
        },
{
}

/// Directories are removed level by level, those with more components first, and each level
/// has all directories of its depth.
pub proof fn law_levels_go_up_depth_by_depth(
    dirs: Seq<Seq<Part>>,
    levels: Seq<Seq<Seq<Part>>>,
    g: int,
    h: int,
)
    requires
        crate::sort::is_grouping(dirs, levels, crate::remove::deeper()),
        0 <= g < h < levels.len(),
    ensures
        levels[g].len() > 0,
        levels[g][0].len() > levels[h][0].len(),
        levels[g] == dirs.filter(|d: Seq<Part>| d.len() == levels[g][0].len()),
        levels[h] == dirs.filter(|d: Seq<Part>| d.len() == levels[h][0].len()),
{
    let le = crate::remove::deeper();
    let a = levels[g][0];
    let b = levels[h][0];
    assert(le(a, b) && !le(b, a));
    let same_a = |d: Seq<Part>| d.len() == levels[g][0].len();
    let same_b = |d: Seq<Part>| d.len() == levels[h][0].len();
    assert(crate::sort::tied(le, a) =~= same_a);
    assert(crate::sort::tied(le, b) =~= same_b);
}

/// Every file that could not be unlinked is reported by its path and what went wrong, in order;
/// a file that was not tried any more is not.
pub proof fn law_failed_files_are_reported_in_order(
    files: Seq<Seq<Part>>,
    outcomes: Seq<FileOutcome>,
    style: Style,
    i: int,
)
    requires
        0 <= i < files.len() <= outcomes.len(),
    ensures
        ({
            let texts = crate::remove::file_errors(files, outcomes, style);
            let before = Seq::new(i as nat, |k: int| k).filter(
                |k: int| outcomes[k] is Failed,
            ).len();
            &&& texts.len() == Seq::new(files.len(), |k: int| k).filter(
                |k: int| outcomes[k] is Failed,
            ).len()
            &&& outcomes[i] is Failed ==> before < texts.len() && texts[before as int]
                == crate::shown::path_text(files[i], style) + ": "@ + outcomes[i]->0@
        }),
{
    let bad = |k: int| outcomes[k] is Failed;
    lemma_file_failures(files, outcomes, style, files.len(), bad, i);
    assert(files.take(files.len() as int) =~= files);
}

proof fn lemma_file_failures(
    files: Seq<Seq<Part>>,
    outcomes: Seq<FileOutcome>,
    style: Style,
    n: nat,
    bad: spec_fn(int) -> bool,
    i: int,
)
    requires
        n <= files.len() <= outcomes.len(),
        forall|k: int| 0 <= k < files.len() ==> #[trigger] bad(k) == (outcomes[k] is Failed),
    ensures
        ({
            let texts = crate::remove::file_errors(files.take(n as int), outcomes, style);
            let before = Seq::new(i as nat, |k: int| k).filter(bad).len();
            &&& texts.len() == Seq::new(n, |k: int| k).filter(bad).len()
            &&& 0 <= i < n && bad(i) ==> before < texts.len() && texts[before as int]
                == crate::shown::path_text(files[i], style) + ": "@ + outcomes[i]->0@
        }),
    decreases n,
{
    reveal(Seq::filter);
    let now = Seq::new(n, |k: int| k);
    if n > 0 {
        let m = (n - 1) as nat;
        lemma_file_failures(files, outcomes, style, m, bad, i);
        assert(now.drop_last() =~= Seq::new(m, |k: int| k));
        assert(now.last() == m);
        assert(files.take(n as int).drop_last() =~= files.take(m as int));
        assert(files.take(n as int)[m as int] == files[m as int]);
        assert(bad(m as int) == (outcomes[m as int] is Failed));
    }
}

/// Every directory of a level that could not be removed is reported by its path and what went
/// wrong, in order.
pub proof fn law_failed_directories_are_reported_in_order(
    dirs: Seq<Seq<Part>>,
    outcomes: Seq<Result<(), String>>,
    style: Style,
    i: int,
)
    requires
        0 <= i < dirs.len() <= outcomes.len(),
    ensures
        ({
            let texts = crate::remove::dir_errors(dirs, outcomes, style);
            let before = Seq::new(i as nat, |k: int| k).filter(
                |k: int| outcomes[k] is Err,
            ).len();
            &&& texts.len() == Seq::new(dirs.len(), |k: int| k).filter(
                |k: int| outcomes[k] is Err,
            ).len()
            &&& outcomes[i] is Err ==> before < texts.len() && texts[before as int]
                == crate::shown::path_text(dirs[i], style) + ": "@ + outcomes[i]->Err_0@
        }),
{
    let bad = |k: int| outcomes[k] is Err;
    lemma_dir_failures(dirs, outcomes, style, dirs.len(), bad, i);
    assert(dirs.take(dirs.len() as int) =~= dirs);
}

proof fn lemma_dir_failures(
    dirs: Seq<Seq<Part>>,
    outcomes: Seq<Result<(), String>>,
    style: Style,
    n: nat,
    bad: spec_fn(int) -> bool,
    i: int,
)
    requires
        n <= dirs.len() <= outcomes.len(),
        forall|k: int| 0 <= k < dirs.len() ==> #[trigger] bad(k) == (outcomes[k] is Err),
    ensures
        ({
            let texts = crate::remove::dir_errors(dirs.take(n as int), outcomes, style);
            let before = Seq::new(i as nat, |k: int| k).filter(bad).len();
            &&& texts.len() == Seq::new(n, |k: int| k).filter(bad).len()
            &&& 0 <= i < n && bad(i) ==> before < texts.len() && texts[before as int]
                == crate::shown::path_text(dirs[i], style) + ": "@ + outcomes[i]->Err_0@
        }),
    decreases n,
{
    reveal(Seq::filter);
    let now = Seq::new(n, |k: int| k);
    if n > 0 {
        let m = (n - 1) as nat;
        lemma_dir_failures(dirs, outcomes, style, m, bad, i);
        assert(now.drop_last() =~= Seq::new(m, |k: int| k));
        assert(now.last() == m);
        assert(dirs.take(n as int).drop_last() =~= dirs.take(m as int));
        assert(dirs.take(n as int)[m as int] == dirs[m as int]);
        assert(bad(m as int) == (outcomes[m as int] is Err));
    }
}

/// The messages of a removal: of the files first, then of the directories level by level; that
/// of moving to the trash; and none where nothing was done.
pub proof fn law_messages_come_files_first(
    root: Seq<Part>,
    found: RemovalRec,
    plan: RemovePlan,
    outcome: RemoveOutcome,
    style: Style,
)
    ensures
        outcome is Nothing ==> crate::remove::removal_errors(root, found, plan, outcome, style).len()
            == 0,
        outcome is Trashed && outcome->0 is Ok ==> crate::remove::removal_errors(
            root,
            found,
            plan,
            outcome,
            style,
        ).len() == 0,
        outcome is Trashed && outcome->0 is Err ==> crate::remove::removal_errors(
            root,
            found,
            plan,
            outcome,
            style,
        ) == seq![crate::shown::path_text(root, style) + ": "@ + outcome->0->Err_0@],
        outcome is Deleted ==> crate::remove::removal_errors(root, found, plan, outcome, style)
            == crate::remove::file_errors(found.files, outcome->files@, style)
            + crate::remove::level_errors(
            crate::sort::group_views(plan->levels@),
            outcome->levels@,
            style,
        ),
{
}

/// The messages of the levels follow each other, level by level.
pub proof fn law_messages_go_level_by_level(
    levels: Seq<Seq<Seq<Part>>>,
    level: Seq<Seq<Part>>,
    outcomes: Seq<Vec<Result<(), String>>>,
    style: Style,
)
    requires
        levels.len() < outcomes.len(),
    ensures
        crate::remove::level_errors(Seq::empty(), outcomes, style).len() == 0,
        crate::remove::level_errors(levels.push(level), outcomes, style)
            == crate::remove::level_errors(levels, outcomes, style) + crate::remove::dir_errors(
            level,
            outcomes[levels.len() as int]@,
            style,
        ),
{
    assert(levels.push(level).drop_last() =~= levels);
}

/// What was done fits the plan exactly if it is of its kind and says of every file and of every
/// directory of every level what came of it.
pub proof fn law_an_outcome_fits_its_plan(
    plan: RemovePlan,
    found: RemovalRec,
    outcome: RemoveOutcome,
)
    requires
        found.lens.len() == found.files.len(),
    ensures
        plan is Nothing ==> (crate::remove::fits(plan, found, outcome) <==> outcome is Nothing),
        plan is Trash ==> (crate::remove::fits(plan, found, outcome) <==> outcome is Trashed),
        plan is Delete ==> (crate::remove::fits(plan, found, outcome) <==> {
            &&& outcome is Deleted
            &&& outcome->files@.len() == found.files.len()
            &&& outcome->levels@.len() == plan->levels@.len()
            &&& forall|g: int|
                0 <= g < plan->levels@.len() ==> (#[trigger] outcome->levels@[g])@.len()
                    == plan->levels@[g]@.len()
        }),
{
}

} // verus!
