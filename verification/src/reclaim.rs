//! Acting on duplicates: what is done to each copy, in which order, and what is
//! reported of it. The steps themselves are performed by the caller.
use vstd::prelude::*;

use crate::path::{FilePath, Part, PathPart};
use crate::shown::{PathStyle, Style};

verus! {

/// How to reclaim the space taken by redundant duplicate copies.
#[derive(Debug, Clone, Copy, PartialEq, Eq, Structural)]
pub enum ReclaimAction {
    /// Permanently delete the redundant copies.
    Delete,
    /// Move the redundant copies to the OS trash / recycle bin.
    Trash,
    /// Delete the copy and recreate it as a hard link to the kept file.
    Hardlink,
}

/// Outcome of a [`reclaim`] call.
#[derive(Debug)]
pub struct ReclaimReport {
    pub removed: usize,
    pub reclaimed: u64,
    pub errors: Vec<String>,
    pub dry_run: bool,
}

/// A report, as a mathematical value.
#[verifier::ext_equal]
pub struct ReclaimRec {
    pub removed: usize,
    pub reclaimed: u64,
    pub errors: Seq<Seq<char>>,
    pub dry_run: bool,
}

impl View for ReclaimReport {
    type V = ReclaimRec;

    open spec fn view(&self) -> ReclaimRec {
        ReclaimRec {
            removed: self.removed,
            reclaimed: self.reclaimed,
            errors: crate::sort::views(self.errors@),
            dry_run: self.dry_run,
        }
    }
}

/// One thing to do to the filesystem.
#[derive(Debug)]
pub enum Step {
    /// Delete the file.
    Delete { path: FilePath },
    /// Move the file to the trash.
    Trash { path: FilePath },
    /// Make `temp` a hard link to `keep`.
    Link { keep: FilePath, temp: FilePath, path: FilePath },
    /// Rename `temp` to `path`, replacing it.
    Replace { temp: FilePath, path: FilePath },
    /// Delete `temp`, whether that works or not, and report `error`.
    Discard { temp: FilePath, error: String },
}

/// A step, as a mathematical value.
#[verifier::ext_equal]
pub enum StepRec {
    Delete { path: Seq<Part> },
    Trash { path: Seq<Part> },
    Link { keep: Seq<Part>, temp: Seq<Part>, path: Seq<Part> },
    Replace { temp: Seq<Part>, path: Seq<Part> },
    Discard { temp: Seq<Part>, error: Seq<char> },
}

impl View for Step {
    type V = StepRec;

    open spec fn view(&self) -> StepRec {
        match self {
            Step::Delete { path } => StepRec::Delete { path: path@ },
            Step::Trash { path } => StepRec::Trash { path: path@ },
            Step::Link { keep, temp, path } => StepRec::Link {
                keep: keep@,
                temp: temp@,
                path: path@,
            },
            Step::Replace { temp, path } => StepRec::Replace { temp: temp@, path: path@ },
            Step::Discard { temp, error } => StepRec::Discard { temp: temp@, error: error@ },
        }
    }
}

/// What to do about one copy.
#[derive(Debug)]
pub enum Verdict {
    /// It is the file to keep: leave it alone.
    Keep,
    /// This is a dry run: only count it.
    Count,
    /// Start with this step.
    Act(Step),
}

/// How it goes on after a step.
#[derive(Debug)]
pub enum Next {
    /// Take this step.
    Then(Step),
    /// The copy is dealt with, or failed with this message.
    Done(Result<(), String>),
}

/// What a copy is called while its replacement is being made: its path with
/// `.dghtmp` behind it.
pub open spec fn temp_path(p: Seq<Part>, suffix: Seq<u8>) -> Seq<Part> {
    if p.len() == 0 {
        seq![Part::Normal(suffix)]
    } else {
        match p.last() {
            Part::Normal(b) => p.drop_last().push(Part::Normal(b + suffix)),
            Part::CurDir => p.drop_last().push(Part::Normal(seq![0x2eu8] + suffix)),
            Part::ParentDir => p.drop_last().push(Part::Normal(seq![0x2eu8, 0x2eu8] + suffix)),
            _ => p.push(Part::Normal(suffix)),
        }
    }
}

/// The bytes of `.dghtmp`.
pub open spec fn temp_suffix() -> Seq<u8> {
    seq![0x2eu8, 0x64u8, 0x67u8, 0x68u8, 0x74u8, 0x6du8, 0x70u8]
}

/// The first step for a copy.
pub open spec fn first_step(keep: Seq<Part>, path: Seq<Part>, action: ReclaimAction) -> StepRec {
    match action {
        ReclaimAction::Delete => StepRec::Delete { path },
        ReclaimAction::Trash => StepRec::Trash { path },
        ReclaimAction::Hardlink => StepRec::Link {
            keep,
            temp: temp_path(path, temp_suffix()),
            path,
        },
    }
}

/// The name of the copy's replacement while it is being made.
fn temp_name(path: &FilePath) -> (r: FilePath)
    ensures
        r@ == temp_path(path@, temp_suffix()),
{
    let mut suffix: Vec<u8> = Vec::new();
    suffix.push(0x2e);
    suffix.push(0x64);
    suffix.push(0x67);
    suffix.push(0x68);
    suffix.push(0x74);
    suffix.push(0x6d);
    suffix.push(0x70);
    assert(suffix@ =~= temp_suffix());
    let n: usize = path.len();
    if n == 0 {
        let mut parts: Vec<PathPart> = Vec::new();
        parts.push(PathPart::Normal(suffix));
        let r = FilePath::new(parts);
        assert(r@ =~= temp_path(path@, temp_suffix()));
        return r;
    }
    let parts = path.parts();
    assert(parts@[n - 1]@ == path@[n - 1]) by {
        assert(crate::sort::views(parts@)[n - 1] == parts@[n - 1]@);
    }
    let mut name: Vec<u8> = Vec::new();
    let mut kept: usize = n - 1;
    match &parts[n - 1] {
        PathPart::Normal(b) => {
            name = crate::path::bytes_copy(b);
        },
        PathPart::CurDir => {
            name.push(0x2e);
            assert(name@ =~= seq![0x2eu8]);
        },
        PathPart::ParentDir => {
            name.push(0x2e);
            name.push(0x2e);
            assert(name@ =~= seq![0x2eu8, 0x2eu8]);
        },
        _ => {
            kept = n;
        },
    }
    let ghost stem = name@;
    name.append(&mut suffix);
    assert(name@ =~= stem + temp_suffix());
    let r = path.prefix(kept).child(PathPart::Normal(name));
    proof {
        if kept == n {
            assert(path@.take(n as int) =~= path@);
            assert(stem + temp_suffix() =~= temp_suffix());
        } else {
            assert(path@.take(n - 1) =~= path@.drop_last());
        }
    }
    r
}

/// Decides what to do about one copy: the file to keep is left alone, and a dry run
/// only counts.
pub fn decide(
    keep: &FilePath,
    path: &FilePath,
    action: ReclaimAction,
    dry_run: bool,
) -> (r: Verdict)
    ensures
        (match r {
            Verdict::Keep => path@ == keep@,
            Verdict::Count => path@ != keep@ && dry_run,
            Verdict::Act(step) => path@ != keep@ && !dry_run && step@ == first_step(
                keep@,
                path@,
                action,
            ),
        }),
        r is Act ==> (match action {
            ReclaimAction::Delete => r->0 is Delete && r->0->Delete_path@ == path@,
            ReclaimAction::Trash => r->0 is Trash && r->0->Trash_path@ == path@,
            ReclaimAction::Hardlink => r->0 is Link && r->0->keep@ == keep@ && r->0->Link_path@
                == path@,
        }),
{
    if path.same(keep) {
        return Verdict::Keep;
    }
    if dry_run {
        return Verdict::Count;
    }
    match action {
        ReclaimAction::Delete => Verdict::Act(Step::Delete { path: path.clone() }),
        ReclaimAction::Trash => Verdict::Act(Step::Trash { path: path.clone() }),
        ReclaimAction::Hardlink => Verdict::Act(
            Step::Link { keep: keep.clone(), temp: temp_name(path), path: path.clone() },
        ),
    }
}

/// The step after `step`, if there is one.
pub open spec fn next_step(step: StepRec, outcome: Result<(), String>) -> Option<StepRec> {
    match step {
        StepRec::Delete { path } => None,
        StepRec::Trash { path } => None,
        StepRec::Link { keep, temp, path } => match outcome {
            Ok(_) => Some(StepRec::Replace { temp, path }),
            Err(_) => None,
        },
        StepRec::Replace { temp, path } => match outcome {
            Ok(_) => None,
            Err(e) => Some(StepRec::Discard { temp, error: e@ }),
        },
        StepRec::Discard { temp, error } => None,
    }
}

/// The message a copy fails with when `step` is its last one; `None` if it does not fail.
pub open spec fn failure(step: StepRec, outcome: Result<(), String>) -> Option<Seq<char>> {
    match step {
        StepRec::Discard { temp, error } => Some(error),
        _ => match outcome {
            Ok(_) => None,
            Err(e) => Some(e@),
        },
    }
}

/// How it goes on after `step` came out as `outcome`. A hard link is made under a
/// temporary name first and then renamed over the copy, so that the copy is left
/// untouched if linking fails. The temporary name is discarded only where the link has
/// been made: where linking failed, whatever has that name was there before.
pub fn follow(step: Step, outcome: Result<(), String>) -> (r: Next)
    ensures
        (match r {
            Next::Then(s) => next_step(step@, outcome) == Some(s@),
            Next::Done(Ok(_)) => next_step(step@, outcome) is None && failure(step@, outcome) is None,
            Next::Done(Err(e)) => next_step(step@, outcome) is None && failure(step@, outcome)
                == Some(e@),
        }),
{
    match step {
        Step::Delete { path: _ } => Next::Done(outcome),
        Step::Trash { path: _ } => Next::Done(outcome),
        Step::Link { keep: _, temp, path } => match outcome {
            Ok(_) => Next::Then(Step::Replace { temp, path }),
            Err(error) => Next::Done(Err(error)),
        },
        Step::Replace { temp, path: _ } => match outcome {
            Ok(_) => Next::Done(Ok(())),
            Err(error) => Next::Then(Step::Discard { temp, error }),
        },
        Step::Discard { temp: _, error } => Next::Done(Err(error)),
    }
}

/// The copies up to the `n`-th that were removed.
pub open spec fn removed_count(
    keep: Seq<Part>,
    remove: Seq<Seq<Part>>,
    dry_run: bool,
    results: Seq<Result<(), String>>,
) -> nat
    decreases remove.len(),
{
    if remove.len() == 0 {
        0
    } else {
        let n = remove.len() - 1;
        removed_count(keep, remove.drop_last(), dry_run, results) + if remove[n] != keep && (dry_run
            || results[n] is Ok) {
            1nat
        } else {
            0
        }
    }
}

/// What is reported of a copy that failed.
pub open spec fn error_text(path: Seq<Part>, message: Seq<char>, style: Style) -> Seq<char> {
    crate::shown::path_text(path, style) + ": "@ + message
}

/// What is reported of the copies that failed, in their order.
pub open spec fn error_texts(
    keep: Seq<Part>,
    remove: Seq<Seq<Part>>,
    dry_run: bool,
    results: Seq<Result<(), String>>,
    style: Style,
) -> Seq<Seq<char>>
    decreases remove.len(),
{
    if remove.len() == 0 {
        Seq::empty()
    } else {
        let n = remove.len() - 1;
        let before = error_texts(keep, remove.drop_last(), dry_run, results, style);
        if remove[n] != keep && !dry_run && results[n] is Err {
            before.push(error_text(remove[n], results[n]->Err_0@, style))
        } else {
            before
        }
    }
}

/// What is reported of a path that failed.
pub fn show_error(path: &FilePath, message: &str, style: &PathStyle) -> (r: String)
    ensures
        r@ == error_text(path@, message@, style@),
{
    let mut text = path.display(style);
    text.append(": ");
    text.append(message);
    text
}

/// Reclaim the space of redundant duplicate copies: keep `keep`, act on every path in
/// `remove` (each assumed to be `size` bytes). `results` says how each of them came out;
/// in a dry run nothing has been done and it is not looked at. The report shows what
/// happened or, in a dry run, what would happen.
pub fn reclaim(
    keep: &FilePath,
    remove: &Vec<FilePath>,
    size: u64,
    dry_run: bool,
    results: &Vec<Result<(), String>>,
    style: &PathStyle,
) -> (r: ReclaimReport)
    requires
        dry_run || results@.len() == remove@.len(),
    ensures
        r.removed == removed_count(
            keep@,
            crate::sort::views(remove@),
            dry_run,
            results@,
        ),
        r.reclaimed == crate::dupes::saturating_product(size, r.removed as nat),
        crate::sort::views(r.errors@) == error_texts(
            keep@,
            crate::sort::views(remove@),
            dry_run,
            results@,
            style@,
        ),
        r.dry_run == dry_run,
{
    let ghost all = crate::sort::views(remove@);
    let mut removed: usize = 0;
    let mut reclaimed: u64 = 0;
    let mut errors: Vec<String> = Vec::new();
    let mut i: usize = 0;
    proof {
        assert(all.take(0) =~= Seq::<Seq<Part>>::empty());
        assert(crate::sort::views(errors@) =~= Seq::<Seq<char>>::empty());
        assert(size * 0nat == 0) by (nonlinear_arith);
    }
    while i < remove.len()
        invariant
            i <= remove.len(),
            dry_run || results@.len() == remove@.len(),
            all == crate::sort::views(remove@),
            removed <= i,
            removed == removed_count(keep@, all.take(i as int), dry_run, results@),
            reclaimed == crate::dupes::saturating_product(size, removed as nat),
            crate::sort::views(errors@) == error_texts(
                keep@,
                all.take(i as int),
                dry_run,
                results@,
                style@,
            ),
        decreases remove.len() - i,
    {
        let path = &remove[i];
        proof {
            assert(all.take(i + 1).drop_last() =~= all.take(i as int));
            assert(all.take(i + 1)[i as int] == path@);
        }
        if !path.same(keep) {
            let failed: Option<&String> = if dry_run {
                None
            } else {
                match &results[i] {
                    Ok(_) => None,
                    Err(e) => Some(e),
                }
            };
            match failed {
                None => {
                    proof {
                        lemma_one_more(size, removed as nat);
                    }
                    removed += 1;
                    reclaimed = match reclaimed.checked_add(size) {
                        Some(sum) => sum,
                        None => u64::MAX,
                    };
                },
                Some(e) => {
                    let ghost was = crate::sort::views(errors@);
                    errors.push(show_error(path, e.as_str(), style));
                    assert(crate::sort::views(errors@) =~= was.push(
                        error_text(path@, e@, style@),
                    ));
                },
            }
        }
        i += 1;
    }
    assert(all.take(i as int) =~= all);
    ReclaimReport { removed, reclaimed, errors, dry_run }
}

proof fn lemma_one_more(size: u64, n: nat)
    ensures
        ({
            let was = crate::dupes::saturating_product(size, n);
            crate::dupes::saturating_product(size, n + 1) == if was + size <= u64::MAX {
                (was + size) as u64
            } else {
                u64::MAX
            }
        }),
{
    assert(size * (n + 1) == size * n + size) by (nonlinear_arith);
    assert(size * n >= 0) by (nonlinear_arith);
}

/// The step belongs to dealing with the copy `path`.
pub open spec fn deals_with(step: StepRec, keep: Seq<Part>, path: Seq<Part>) -> bool {
    match step {
        StepRec::Delete { path: p } => p == path,
        StepRec::Trash { path: p } => p == path,
        StepRec::Link { keep: k, temp, path: p } => k == keep && p == path && temp == temp_path(
            path,
            temp_suffix(),
        ),
        StepRec::Replace { temp, path: p } => p == path && temp == temp_path(path, temp_suffix()),
        StepRec::Discard { temp, error } => temp == temp_path(path, temp_suffix()),
    }
}

/// All steps taken for a copy deal with that copy: the first one does, and so does
/// whatever follows a step that does.
pub proof fn law_steps_deal_with_their_copy(
    keep: Seq<Part>,
    path: Seq<Part>,
    action: ReclaimAction,
    step: StepRec,
    outcome: Result<(), String>,
)
    ensures
        deals_with(first_step(keep, path, action), keep, path),
        deals_with(step, keep, path) && next_step(step, outcome) is Some ==> deals_with(
            next_step(step, outcome)->0,
            keep,
            path,
        ),
{
}

/// Whether a step can come out like this where `disk` says which physical file each path
/// names. A hard link is made only under a name that nothing has yet.
pub open spec fn possible(
    disk: Map<Seq<Part>, nat>,
    step: StepRec,
    outcome: Result<(), String>,
) -> bool {
    outcome is Ok ==> match step {
        StepRec::Delete { path } => disk.contains_key(path),
        StepRec::Trash { path } => disk.contains_key(path),
        StepRec::Link { keep, temp, path } => disk.contains_key(keep) && !disk.contains_key(temp),
        StepRec::Replace { temp, path } => disk.contains_key(temp),
        StepRec::Discard { temp, error } => disk.contains_key(temp),
    }
}

/// The disk after a step; one that failed changed nothing. Renaming a path to another
/// name of the same physical file does nothing.
pub open spec fn disk_after(
    disk: Map<Seq<Part>, nat>,
    step: StepRec,
    outcome: Result<(), String>,
) -> Map<Seq<Part>, nat> {
    if outcome is Err {
        disk
    } else {
        match step {
            StepRec::Delete { path } => disk.remove(path),
            StepRec::Trash { path } => disk.remove(path),
            StepRec::Link { keep, temp, path } => disk.insert(temp, disk[keep]),
            StepRec::Replace { temp, path } => if disk.contains_key(path) && disk[path]
                == disk[temp] {
                disk
            } else {
                disk.remove(temp).insert(path, disk[temp])
            },
            StepRec::Discard { temp, error } => disk.remove(temp),
        }
    }
}

/// Taking `step` and whatever follows it can come out like this, step by step.
pub open spec fn could_happen(
    disk: Map<Seq<Part>, nat>,
    step: StepRec,
    outcomes: Seq<Result<(), String>>,
) -> bool
    decreases outcomes.len(),
{
    &&& outcomes.len() > 0
    &&& possible(disk, step, outcomes[0])
    &&& match next_step(step, outcomes[0]) {
        Some(s) => could_happen(
            disk_after(disk, step, outcomes[0]),
            s,
            outcomes.drop_first(),
        ),
        None => outcomes.len() == 1,
    }
}

/// The disk after `step` and whatever follows it.
pub open spec fn carried_out(
    disk: Map<Seq<Part>, nat>,
    step: StepRec,
    outcomes: Seq<Result<(), String>>,
) -> Map<Seq<Part>, nat>
    decreases outcomes.len(),
{
    if outcomes.len() == 0 {
        disk
    } else {
        let now = disk_after(disk, step, outcomes[0]);
        match next_step(step, outcomes[0]) {
            Some(s) => carried_out(now, s, outcomes.drop_first()),
            None => now,
        }
    }
}

/// The message that `step` and whatever follows it fail with; `None` if they do not fail.
pub open spec fn failed_with(step: StepRec, outcomes: Seq<Result<(), String>>) -> Option<Seq<char>>
    decreases outcomes.len(),
{
    if outcomes.len() == 0 {
        None
    } else {
        match next_step(step, outcomes[0]) {
            Some(s) => failed_with(s, outcomes.drop_first()),
            None => failure(step, outcomes[0]),
        }
    }
}

/// Whatever happens, the kept file is as it was, and so is every path but the copy: one
/// that already has the temporary name, too. The temporary name is left behind only
/// where discarding it failed.
pub proof fn law_only_the_copy_changes(
    disk: Map<Seq<Part>, nat>,
    keep: Seq<Part>,
    path: Seq<Part>,
    action: ReclaimAction,
    outcomes: Seq<Result<(), String>>,
    p: Seq<Part>,
)
    requires
        path != keep,
        disk.contains_key(keep),
        disk.contains_key(path),
        disk[keep] != disk[path],
        could_happen(disk, first_step(keep, path, action), outcomes),
        p != path,
    ensures
        ({
            let end = carried_out(disk, first_step(keep, path, action), outcomes);
            &&& end.contains_key(keep) && end[keep] == disk[keep]
            &&& disk.contains_key(p) ==> end.contains_key(p) && end[p] == disk[p]
            &&& !disk.contains_key(p) && end.contains_key(p) ==> action is Hardlink && p
                == temp_path(path, temp_suffix()) && outcomes.last() is Err
        }),
{
    reveal_with_fuel(could_happen, 4);
    reveal_with_fuel(carried_out, 4);
    lemma_temp_differs(path);
}

/// A copy that was hard-linked names the kept file; one that was deleted or moved to the
/// trash is gone; one that failed is what it was.
pub proof fn law_copies_are_reclaimed_or_left(
    disk: Map<Seq<Part>, nat>,
    keep: Seq<Part>,
    path: Seq<Part>,
    action: ReclaimAction,
    outcomes: Seq<Result<(), String>>,
)
    requires
        path != keep,
        disk.contains_key(keep),
        disk.contains_key(path),
        disk[keep] != disk[path],
        could_happen(disk, first_step(keep, path, action), outcomes),
    ensures
        ({
            let first = first_step(keep, path, action);
            let end = carried_out(disk, first, outcomes);
            if failed_with(first, outcomes) is Some {
                end.contains_key(path) && end[path] == disk[path]
            } else if action is Hardlink {
                end.contains_key(path) && end[path] == disk[keep]
            } else {
                !end.contains_key(path)
            }
        }),
{
    reveal_with_fuel(could_happen, 4);
    reveal_with_fuel(carried_out, 4);
    reveal_with_fuel(failed_with, 4);
    lemma_temp_differs(path);
}

/// Every copy's steps can come out like this, one copy after the other. The kept file is
/// never acted on.
pub open spec fn all_could_happen(
    disk: Map<Seq<Part>, nat>,
    keep: Seq<Part>,
    remove: Seq<Seq<Part>>,
    action: ReclaimAction,
    outcomes: Seq<Seq<Result<(), String>>>,
) -> bool
    decreases remove.len(),
{
    if remove.len() == 0 {
        true
    } else {
        let n = remove.len() - 1;
        let before = all_carried_out(disk, keep, remove.drop_last(), action, outcomes);
        &&& all_could_happen(disk, keep, remove.drop_last(), action, outcomes)
        &&& remove[n] != keep ==> could_happen(
            before,
            first_step(keep, remove[n], action),
            outcomes[n],
        )
    }
}

/// The disk after every copy's steps.
pub open spec fn all_carried_out(
    disk: Map<Seq<Part>, nat>,
    keep: Seq<Part>,
    remove: Seq<Seq<Part>>,
    action: ReclaimAction,
    outcomes: Seq<Seq<Result<(), String>>>,
) -> Map<Seq<Part>, nat>
    decreases remove.len(),
{
    if remove.len() == 0 {
        disk
    } else {
        let n = remove.len() - 1;
        let before = all_carried_out(disk, keep, remove.drop_last(), action, outcomes);
        if remove[n] == keep {
            before
        } else {
            carried_out(before, first_step(keep, remove[n], action), outcomes[n])
        }
    }
}

/// Whether a copy whose steps came out like this is what it should be: as it was where
/// they failed, another name of the kept file where it was hard-linked, and gone else.
pub open spec fn settled(
    disk: Map<Seq<Part>, nat>,
    end: Map<Seq<Part>, nat>,
    keep: Seq<Part>,
    path: Seq<Part>,
    action: ReclaimAction,
    outcomes: Seq<Result<(), String>>,
) -> bool {
    if failed_with(first_step(keep, path, action), outcomes) is Some {
        end.contains_key(path) && end[path] == disk[path]
    } else if action is Hardlink {
        end.contains_key(path) && end[path] == disk[keep]
    } else {
        !end.contains_key(path)
    }
}

/// Whether something has a name that it did not have before only because a temporary name
/// could not be discarded.
pub open spec fn left_over(
    remove: Seq<Seq<Part>>,
    outcomes: Seq<Seq<Result<(), String>>>,
    p: Seq<Part>,
) -> bool {
    exists|i: int|
        0 <= i < remove.len() && p == temp_path(#[trigger] remove[i], temp_suffix())
            && outcomes[i].last() is Err
}

/// Reclaiming copies that are other physical files than the kept one settles each of them,
/// whatever comes of the others. The kept file and every path that is no copy are as they
/// were.
pub proof fn law_reclaiming_settles_every_copy(
    disk: Map<Seq<Part>, nat>,
    keep: Seq<Part>,
    remove: Seq<Seq<Part>>,
    action: ReclaimAction,
    outcomes: Seq<Seq<Result<(), String>>>,
)
    requires
        disk.contains_key(keep),
        remove.no_duplicates(),
        forall|i: int|
            0 <= i < remove.len() && #[trigger] remove[i] != keep ==> disk.contains_key(remove[i])
                && disk[remove[i]] != disk[keep],
        remove.len() <= outcomes.len(),
        all_could_happen(disk, keep, remove, action, outcomes),
    ensures
        ({
            let end = all_carried_out(disk, keep, remove, action, outcomes);
            &&& end.contains_key(keep) && end[keep] == disk[keep]
            &&& forall|i: int|
                0 <= i < remove.len() && #[trigger] remove[i] != keep ==> settled(
                    disk,
                    end,
                    keep,
                    remove[i],
                    action,
                    outcomes[i],
                )
            &&& forall|p: Seq<Part>| #[trigger]
                disk.contains_key(p) && !remove.contains(p) ==> end.contains_key(p) && end[p]
                    == disk[p]
            &&& forall|p: Seq<Part>| #[trigger]
                end.contains_key(p) && !disk.contains_key(p) ==> action is Hardlink && left_over(
                    remove,
                    outcomes,
                    p,
                )
        }),
    decreases remove.len(),
{
    if remove.len() > 0 {
        let n = remove.len() - 1;
        let path = remove[n];
        let earlier = remove.drop_last();
        let before = all_carried_out(disk, keep, earlier, action, outcomes);
        let end = all_carried_out(disk, keep, remove, action, outcomes);
        assert forall|i: int| 0 <= i < earlier.len() && #[trigger] earlier[i] != keep implies
            disk.contains_key(earlier[i]) && disk[earlier[i]] != disk[keep] by {
            assert(remove[i] == earlier[i]);
        }
        law_reclaiming_settles_every_copy(disk, keep, earlier, action, outcomes);
        assert(!earlier.contains(path)) by {
            if earlier.contains(path) {
                let i = choose|i: int| 0 <= i < earlier.len() && earlier[i] == path;
                assert(remove[i] == remove[n]);
            }
        }
        assert forall|p: Seq<Part>| left_over(earlier, outcomes, p) implies left_over(
            remove,
            outcomes,
            p,
        ) by {
            let i = choose|i: int|
                0 <= i < earlier.len() && p == temp_path(#[trigger] earlier[i], temp_suffix())
                    && outcomes[i].last() is Err;
            assert(remove[i] == earlier[i]);
        }
        if path != keep {
            assert(before.contains_key(path) && before[path] == disk[path]);
            law_copies_are_reclaimed_or_left(before, keep, path, action, outcomes[n]);
            assert forall|p: Seq<Part>| p != path implies {
                &&& end.contains_key(keep) && end[keep] == before[keep]
                &&& before.contains_key(p) ==> end.contains_key(p) && end[p] == before[p]
                &&& !before.contains_key(p) && end.contains_key(p) ==> action is Hardlink && p
                    == temp_path(path, temp_suffix()) && outcomes[n].last() is Err
            } by {
                law_only_the_copy_changes(before, keep, path, action, outcomes[n], p);
            }
            assert(keep != path);
        }
        assert forall|i: int| 0 <= i < remove.len() && #[trigger] remove[i] != keep implies settled(
            disk,
            end,
            keep,
            remove[i],
            action,
            outcomes[i],
        ) by {
            if i < n {
                assert(earlier[i] == remove[i]);
                assert(remove[i] != path);
            }
        }
        assert forall|p: Seq<Part>| #[trigger]
            disk.contains_key(p) && !remove.contains(p) implies end.contains_key(p) && end[p]
            == disk[p] by {
            assert(remove[n] == path);
            assert(!earlier.contains(p)) by {
                if earlier.contains(p) {
                    let i = choose|i: int| 0 <= i < earlier.len() && earlier[i] == p;
                    assert(remove[i] == p);
                }
            }
        }
        assert forall|p: Seq<Part>| #[trigger]
            end.contains_key(p) && !disk.contains_key(p) implies action is Hardlink && left_over(
            remove,
            outcomes,
            p,
        ) by {
            if before.contains_key(p) {
                assert(left_over(earlier, outcomes, p));
            } else {
                law_only_the_copy_changes(before, keep, path, action, outcomes[n], p);
                assert(remove[n] == path);
            }
        }
    }
}

/// Reports on some copies and on the rest, joined, show the bytes that a report on all of
/// them shows.
pub proof fn law_joined_reports_show_all_bytes(size: u64, some: nat, rest: nat)
    ensures
        crate::remove::capped(
            (crate::dupes::saturating_product(size, some) + crate::dupes::saturating_product(
                size,
                rest,
            )) as nat,
        ) == crate::dupes::saturating_product(size, some + rest),
{
    assert(size * (some + rest) == size * some + size * rest) by (nonlinear_arith);
    assert(size * some >= 0 && size * rest >= 0) by (nonlinear_arith);
}

/// A copy that failed is reported, by its path and what went wrong.
pub proof fn law_failed_copies_are_reported(
    keep: Seq<Part>,
    remove: Seq<Seq<Part>>,
    results: Seq<Result<(), String>>,
    style: Style,
    i: int,
)
    requires
        0 <= i < remove.len() <= results.len(),
        remove[i] != keep,
        results[i] is Err,
    ensures
        error_texts(keep, remove, false, results, style).contains(
            error_text(remove[i], results[i]->Err_0@, style),
        ),
    decreases remove.len(),
{
    let n = remove.len() - 1;
    let before = error_texts(keep, remove.drop_last(), false, results, style);
    let all = error_texts(keep, remove, false, results, style);
    if i < n {
        law_failed_copies_are_reported(keep, remove.drop_last(), results, style, i);
        let text = error_text(remove[i], results[i]->Err_0@, style);
        let j = choose|j: int| 0 <= j < before.len() && before[j] == text;
        assert(all[j] == text);
    } else {
        assert(all.last() == error_text(remove[i], results[i]->Err_0@, style));
    }
}

/// Where making the link fails, that is the end of it: the copy fails with that message,
/// and nothing on the disk has changed.
pub proof fn law_failed_link_leaves_everything(
    disk: Map<Seq<Part>, nat>,
    keep: Seq<Part>,
    path: Seq<Part>,
    outcome: Result<(), String>,
)
    requires
        outcome is Err,
    ensures
        ({
            let link = first_step(keep, path, ReclaimAction::Hardlink);
            &&& next_step(link, outcome) is None
            &&& failure(link, outcome) == Some(outcome->Err_0@)
            &&& disk_after(disk, link, outcome) == disk
        }),
{
}

/// The temporary name is never the name of the copy itself.
proof fn lemma_temp_differs(path: Seq<Part>)
    ensures
        temp_path(path, temp_suffix()) != path,
{
    let t = temp_path(path, temp_suffix());
    if path.len() > 0 && t.len() == path.len() {
        let a = t.last();
        let b = path.last();
        if a == b {
            let x = a->Normal_0;
            assert(b is Normal);
            let y = b->Normal_0;
            assert(x == y + temp_suffix());
            assert(x.len() == y.len() + 7);
        }
    }
}

/// In a dry run nothing fails, and every path but the kept one counts.
pub proof fn law_dry_run_counts_everything_else(
    keep: Seq<Part>,
    remove: Seq<Seq<Part>>,
    results: Seq<Result<(), String>>,
    style: Style,
)
    ensures
        removed_count(keep, remove, true, results) == remove.filter(
            |p: Seq<Part>| p != keep,
        ).len(),
        error_texts(keep, remove, true, results, style) == Seq::<Seq<char>>::empty(),
    decreases remove.len(),
{
    reveal(Seq::filter);
    if remove.len() > 0 {
        law_dry_run_counts_everything_else(keep, remove.drop_last(), results, style);
    }
}

/// Every path but the kept one is either counted as removed or reported as failed.
pub proof fn law_every_copy_is_accounted_for(
    keep: Seq<Part>,
    remove: Seq<Seq<Part>>,
    dry_run: bool,
    results: Seq<Result<(), String>>,
    style: Style,
)
    requires
        dry_run || results.len() == remove.len(),
    ensures
        removed_count(keep, remove, dry_run, results) + error_texts(
            keep,
            remove,
            dry_run,
            results,
            style,
        ).len() == remove.filter(|p: Seq<Part>| p != keep).len(),
{
    lemma_accounted(keep, remove, dry_run, results, style);
}

proof fn lemma_accounted(
    keep: Seq<Part>,
    remove: Seq<Seq<Part>>,
    dry_run: bool,
    results: Seq<Result<(), String>>,
    style: Style,
)
    requires
        dry_run || results.len() >= remove.len(),
    ensures
        removed_count(keep, remove, dry_run, results) + error_texts(
            keep,
            remove,
            dry_run,
            results,
            style,
        ).len() == remove.filter(|p: Seq<Part>| p != keep).len(),
    decreases remove.len(),
{
    reveal(Seq::filter);
    if remove.len() > 0 {
        lemma_accounted(keep, remove.drop_last(), dry_run, results, style);
    }
}

/// Splits a group of duplicates into the file to keep, which is its first, and the
/// copies to reclaim. A group of fewer than two files has nothing to reclaim.
pub fn reclaim_job(group: &crate::dupes::DupGroup) -> (r: Option<(FilePath, Vec<FilePath>)>)
    ensures
        (match r {
            Some((keep, remove)) => group@.files.len() >= 2 && keep@ == group@.files[0]
                && crate::sort::views(remove@) == group@.files.drop_first(),
            None => group@.files.len() < 2,
        }),
{
    let n: usize = group.files.len();
    if n < 2 {
        return None;
    }
    let mut remove: Vec<FilePath> = Vec::new();
    let mut i: usize = 1;
    while i < n
        invariant
            1 <= i <= n,
            n == group.files.len(),
            remove.len() == i - 1,
            forall|j: int| 0 <= j < i - 1 ==> (#[trigger] remove@[j])@ == group.files@[j + 1]@,
        decreases n - i,
    {
        remove.push(group.files[i].clone());
        i += 1;
    }
    assert(crate::sort::views(remove@) =~= group@.files.drop_first());
    Some((group.files[0].clone(), remove))
}

impl ReclaimReport {
    /// A report of nothing.
    pub fn empty(dry_run: bool) -> (r: ReclaimReport)
        ensures
            r@ == (ReclaimRec { removed: 0, reclaimed: 0, errors: Seq::empty(), dry_run }),
    {
        let r = ReclaimReport { removed: 0, reclaimed: 0, errors: Vec::new(), dry_run };
        assert(r@.errors =~= Seq::<Seq<char>>::empty());
        r
    }

    /// Takes the report of another copy into a report over copies of the same file. The
    /// bytes stay at what they can hold at most.
    pub fn join(&mut self, other: ReclaimReport)
        requires
            old(self).removed + other.removed <= usize::MAX,
        ensures
            final(self)@ == (ReclaimRec {
                removed: (old(self).removed + other.removed) as usize,
                reclaimed: crate::remove::capped((old(self).reclaimed + other.reclaimed) as nat),
                errors: old(self)@.errors + other@.errors,
                dry_run: old(self).dry_run,
            }),
    {
        let ghost was = self.errors@;
        let ghost more = other.errors@;
        let mut errors = other.errors;
        self.removed += other.removed;
        self.reclaimed = crate::remove::add_capped(self.reclaimed, other.reclaimed);
        self.errors.append(&mut errors);
        assert(self.errors@ =~= was + more);
        assert(self@.errors =~= old(self)@.errors + other@.errors);
    }

    /// Takes the report of one more group into a report over several.
    pub fn merge(&mut self, other: ReclaimReport)
        requires
            old(self).removed + other.removed <= usize::MAX,
            old(self).reclaimed + other.reclaimed <= u64::MAX,
        ensures
            final(self)@ == (ReclaimRec {
                removed: (old(self).removed + other.removed) as usize,
                reclaimed: (old(self).reclaimed + other.reclaimed) as u64,
                errors: old(self)@.errors + other@.errors,
                dry_run: old(self).dry_run,
            }),
    {
        let ghost was = self.errors@;
        let ghost more = other.errors@;
        let mut errors = other.errors;
        self.removed += other.removed;
        self.reclaimed += other.reclaimed;
        self.errors.append(&mut errors);
        assert(self.errors@ =~= was + more);
        assert(self@.errors =~= old(self)@.errors + other@.errors);
    }
}

} // verus!
