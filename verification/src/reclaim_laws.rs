//! What reclaiming does to a copy, and what is reported of it.
use vstd::prelude::*;

use crate::path::Part;
use crate::reclaim::{ReclaimAction, Step, StepRec};
use crate::shown::Style;

verus! {

/// Every action starts with its own kind of step, on the copy and on nothing else: what is to
/// be moved to the trash is never deleted, and the other way round.
pub proof fn law_every_action_does_what_it_says(
    keep: Seq<Part>,
    path: Seq<Part>,
    action: ReclaimAction,
)
    ensures
        ({
            let step = crate::reclaim::first_step(keep, path, action);
            &&& step is Delete <==> action is Delete
            &&& step is Trash <==> action is Trash
            &&& step is Link <==> action is Hardlink
            &&& step is Delete ==> step->Delete_path == path
            &&& step is Trash ==> step->Trash_path == path
            &&& step is Link ==> step->keep == keep && step->Link_path == path
        }),
{
}

/// What the trash holds after a step: what was moved there stays recoverable, and nothing else
/// gets there.
pub open spec fn bin_after(
    bin: Seq<(Seq<Part>, nat)>,
    disk: Map<Seq<Part>, nat>,
    step: StepRec,
    outcome: Result<(), String>,
) -> Seq<(Seq<Part>, nat)> {
    if step is Trash && outcome is Ok {
        bin.push((step->Trash_path, disk[step->Trash_path]))
    } else {
        bin
    }
}

/// A copy that was moved to the trash can be had back from there, and a copy that was deleted or
/// replaced by a link cannot: where `action` is to trash, a copy that is gone from its place is in
/// the trash, and otherwise the trash is what it was.
pub proof fn law_trashed_copies_can_be_had_back(
    keep: Seq<Part>,
    path: Seq<Part>,
    action: ReclaimAction,
    bin: Seq<(Seq<Part>, nat)>,
    disk: Map<Seq<Part>, nat>,
    outcome: Result<(), String>,
)
    requires
        path != keep,
        disk.contains_key(path),
    ensures
        ({
            let step = crate::reclaim::first_step(keep, path, action);
            let end = crate::reclaim::disk_after(disk, step, outcome);
            let trash = bin_after(bin, disk, step, outcome);
            &&& action is Trash && outcome is Ok ==> !end.contains_key(path) && trash == bin.push(
                (path, disk[path]),
            )
            &&& action is Delete && outcome is Ok ==> !end.contains_key(path) && trash == bin
            &&& action is Hardlink || outcome is Err ==> trash == bin
            &&& outcome is Err ==> end == disk
        }),
{
}

/// A step shows what it is: its kind, and the paths that it is about.
pub proof fn law_steps_show_what_they_do(step: Step)
    ensures
        step is Delete <==> step@ is Delete,
        step is Trash <==> step@ is Trash,
        step is Link <==> step@ is Link,
        step is Replace <==> step@ is Replace,
        step is Discard <==> step@ is Discard,
        step is Delete ==> step@->Delete_path == step->Delete_path@,
        step is Trash ==> step@->Trash_path == step->Trash_path@,
        step is Link ==> step@->keep == step->keep@ && step@->Link_temp == step->Link_temp@
            && step@->Link_path == step->Link_path@,
        step is Replace ==> step@->Replace_temp == step->Replace_temp@ && step@->Replace_path
            == step->Replace_path@,
        step is Discard ==> step@->Discard_temp == step->Discard_temp@ && step@->error
            == step->error@,
{
}

/// A copy is replaced by a hard link in two steps: the link is made under a temporary name,
/// and takes the copy's place only once it is there. Where taking its place fails the
/// temporary name goes away again. Everything else takes one step.
pub proof fn law_a_link_takes_the_place_of_the_copy(
    keep: Seq<Part>,
    temp: Seq<Part>,
    path: Seq<Part>,
    error: Seq<char>,
    outcome: Result<(), String>,
)
    ensures
        ({
            let link = StepRec::Link { keep, temp, path };
            let replace = StepRec::Replace { temp, path };
            let discard = StepRec::Discard { temp, error };
            let delete = StepRec::Delete { path };
            let trash = StepRec::Trash { path };
            &&& outcome is Ok ==> crate::reclaim::next_step(link, outcome) == Some(replace)
            &&& outcome is Err ==> crate::reclaim::next_step(link, outcome) is None
            &&& outcome is Ok ==> crate::reclaim::next_step(replace, outcome) is None
            &&& outcome is Err ==> crate::reclaim::next_step(replace, outcome) == Some(
                StepRec::Discard { temp, error: outcome->Err_0@ },
            )
            &&& crate::reclaim::next_step(discard, outcome) is None
            &&& crate::reclaim::next_step(delete, outcome) is None
            &&& crate::reclaim::next_step(trash, outcome) is None
        }),
{
}

/// A copy fails with the message of the step that failed, and succeeds if none did.
pub proof fn law_the_step_that_failed_is_reported(step: StepRec, outcome: Result<(), String>)
    ensures
        step is Discard ==> crate::reclaim::failure(step, outcome) == Some(step->error),
        !(step is Discard) && outcome is Ok ==> crate::reclaim::failure(step, outcome) is None,
        !(step is Discard) && outcome is Err ==> crate::reclaim::failure(step, outcome) == Some(
            outcome->Err_0@,
        ),
{
}

/// The temporary name is the copy's own name with `.dghtmp` behind it, in the same folder. Where
/// a path has no name, `.dghtmp` is the name.
pub proof fn law_the_temporary_name_lies_beside_the_copy(folder: Seq<Part>, last: Part)
    ensures
        ({
            let suffix = vstd::utf8::encode_utf8(".dghtmp"@);
            let temp = crate::reclaim::temp_path(
                folder.push(last),
                crate::reclaim::temp_suffix(),
            );
            &&& last is Normal ==> temp == folder.push(Part::Normal(last->Normal_0 + suffix))
            &&& last is CurDir ==> temp == folder.push(
                Part::Normal(vstd::utf8::encode_utf8("."@) + suffix),
            )
            &&& last is ParentDir ==> temp == folder.push(
                Part::Normal(vstd::utf8::encode_utf8(".."@) + suffix),
            )
            &&& last is RootDir || last is Prefix ==> temp == folder.push(last).push(
                Part::Normal(suffix),
            )
            &&& crate::reclaim::temp_path(Seq::empty(), crate::reclaim::temp_suffix()) == seq![
                Part::Normal(suffix),
            ]
        }),
{
    reveal_strlit(".dghtmp");
    reveal_strlit(".");
    reveal_strlit("..");
    vstd::utf8::is_ascii_chars_encode_utf8(".dghtmp"@);
    vstd::utf8::is_ascii_chars_encode_utf8("."@);
    vstd::utf8::is_ascii_chars_encode_utf8(".."@);
    assert(vstd::utf8::encode_utf8(".dghtmp"@) =~= crate::reclaim::temp_suffix());
    assert(vstd::utf8::encode_utf8("."@) =~= seq![0x2eu8]);
    assert(vstd::utf8::encode_utf8(".."@) =~= seq![0x2eu8, 0x2eu8]);
    assert(folder.push(last).drop_last() =~= folder);
}

/// The copies counted are those that are not the kept file and that, but for a dry run, did not
/// fail. Each stands for its bytes, as far as a number of bytes goes.
pub proof fn law_what_was_reclaimed_is_counted(
    keep: Seq<Part>,
    remove: Seq<Seq<Part>>,
    dry_run: bool,
    results: Seq<Result<(), String>>,
    size: u64,
)
    requires
        dry_run || results.len() >= remove.len(),
    ensures
        ({
            let counted = Seq::new(remove.len(), |i: int| i).filter(
                |i: int| remove[i] != keep && (dry_run || results[i] is Ok),
            ).len();
            let bytes = crate::dupes::saturating_product(
                size,
                crate::reclaim::removed_count(keep, remove, dry_run, results),
            );
            &&& crate::reclaim::removed_count(keep, remove, dry_run, results) == counted
            &&& size * counted <= u64::MAX ==> bytes == size * counted
            &&& size * counted > u64::MAX ==> bytes == u64::MAX
        }),
{
    let good = |i: int| remove[i] != keep && (dry_run || results[i] is Ok);
    lemma_counted(keep, remove, dry_run, results, remove.len(), good);
    assert(remove.take(remove.len() as int) =~= remove);
}

proof fn lemma_counted(
    keep: Seq<Part>,
    remove: Seq<Seq<Part>>,
    dry_run: bool,
    results: Seq<Result<(), String>>,
    n: nat,
    good: spec_fn(int) -> bool,
)
    requires
        n <= remove.len(),
        forall|i: int|
            0 <= i < remove.len() ==> #[trigger] good(i) == (remove[i] != keep && (dry_run
                || results[i] is Ok)),
    ensures
        crate::reclaim::removed_count(keep, remove.take(n as int), dry_run, results) == Seq::new(
            n,
            |i: int| i,
        ).filter(good).len(),
    decreases n,
{
    reveal(Seq::filter);
    let now = Seq::new(n, |i: int| i);
    if n > 0 {
        let m = (n - 1) as nat;
        lemma_counted(keep, remove, dry_run, results, m, good);
        assert(now.drop_last() =~= Seq::new(m, |i: int| i));
        assert(now.last() == m);
        assert(remove.take(n as int).drop_last() =~= remove.take(m as int));
        assert(remove.take(n as int)[m as int] == remove[m as int]);
        assert(good(m as int) == (remove[m as int] != keep && (dry_run || results[m as int] is Ok)));
    }
}

/// Every copy that failed is reported by its path and what went wrong, in the order of the
/// copies, and nothing else is reported.
pub proof fn law_failures_are_reported_in_order(
    keep: Seq<Part>,
    remove: Seq<Seq<Part>>,
    results: Seq<Result<(), String>>,
    style: Style,
    i: int,
)
    requires
        0 <= i < remove.len() <= results.len(),
    ensures
        ({
            let texts = crate::reclaim::error_texts(keep, remove, false, results, style);
            let before = Seq::new(i as nat, |k: int| k).filter(
                |k: int| remove[k] != keep && results[k] is Err,
            ).len();
            &&& texts.len() == Seq::new(remove.len(), |k: int| k).filter(
                |k: int| remove[k] != keep && results[k] is Err,
            ).len()
            &&& remove[i] != keep && results[i] is Err ==> before < texts.len()
                && texts[before as int] == crate::shown::path_text(remove[i], style) + ": "@
                + results[i]->Err_0@
        }),
{
    let bad = |k: int| remove[k] != keep && results[k] is Err;
    lemma_failures(keep, remove, results, style, remove.len(), bad, i);
    assert(remove.take(remove.len() as int) =~= remove);
}

proof fn lemma_failures(
    keep: Seq<Part>,
    remove: Seq<Seq<Part>>,
    results: Seq<Result<(), String>>,
    style: Style,
    n: nat,
    bad: spec_fn(int) -> bool,
    i: int,
)
    requires
        n <= remove.len() <= results.len(),
        forall|k: int|
            0 <= k < remove.len() ==> #[trigger] bad(k) == (remove[k] != keep && results[k] is Err),
    ensures
        ({
            let texts = crate::reclaim::error_texts(
                keep,
                remove.take(n as int),
                false,
                results,
                style,
            );
            let before = Seq::new(i as nat, |k: int| k).filter(bad).len();
            &&& texts.len() == Seq::new(n, |k: int| k).filter(bad).len()
            &&& 0 <= i < n && bad(i) ==> before < texts.len() && texts[before as int]
                == crate::shown::path_text(remove[i], style) + ": "@ + results[i]->Err_0@
        }),
    decreases n,
{
    reveal(Seq::filter);
    let now = Seq::new(n, |k: int| k);
    if n > 0 {
        let m = (n - 1) as nat;
        lemma_failures(keep, remove, results, style, m, bad, i);
        assert(now.drop_last() =~= Seq::new(m, |k: int| k));
        assert(now.last() == m);
        assert(remove.take(n as int).drop_last() =~= remove.take(m as int));
        assert(remove.take(n as int)[m as int] == remove[m as int]);
        assert(bad(m as int) == (remove[m as int] != keep && results[m as int] is Err));
    }
}

} // verus!
