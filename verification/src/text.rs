//! What the command line tool prints.
use vstd::prelude::*;

use crate::dupes::{DupGroup, GroupRec};
use crate::path::{FilePath, Part};
use crate::progress::Progress;
use crate::reclaim::ReclaimReport;
use crate::remove::RemoveReport;
use crate::report::{DirRec, DirSize, FileEntry, FileRec, ScanReport};
use crate::shown::{PathStyle, Style};
use crate::snapshot::{DeltaRec, DiffReport, DirDelta, SnapshotError};

verus! {

/// Appends a line.
fn push_line(out: &mut Vec<String>, line: String)
    ensures
        crate::sort::views(final(out)@) == crate::sort::views(old(out)@).push(line@),
{
    let ghost was = crate::sort::views(out@);
    out.push(line);
    assert(crate::sort::views(out@) =~= was.push(line@));
}

/// A size, right-aligned, and what it is the size of.
pub open spec fn sized_line(size: u64, what: Seq<char>) -> Seq<char> {
    "  "@ + crate::decimal::pad_left(crate::size::human_text(size), ' ', 10) + "  "@ + what
}

fn show_sized(size: u64, what: &str) -> (r: String)
    ensures
        r@ == sized_line(size, what@),
{
    proof {
        reveal_strlit(" ");
    }
    let mut line = "  ".to_owned();
    line.append(crate::decimal::pad(crate::size::human_size(size).as_str(), " ", 10).as_str());
    line.append("  ");
    line.append(what);
    line
}

/// A line for each folder.
pub open spec fn folder_lines(dirs: Seq<DirRec>, style: Style) -> Seq<Seq<char>> {
    Seq::new(
        dirs.len(),
        |i: int| sized_line(dirs[i].size, crate::shown::path_text(dirs[i].path, style)),
    )
}

fn push_folders(out: &mut Vec<String>, dirs: &Vec<DirSize>, style: &PathStyle)
    ensures
        crate::sort::views(final(out)@) == crate::sort::views(old(out)@) + folder_lines(
            crate::sort::views(dirs@),
            style@,
        ),
{
    let ghost was = crate::sort::views(out@);
    let ghost lines = folder_lines(crate::sort::views(dirs@), style@);
    let mut i: usize = 0;
    assert(was + lines.take(0) =~= was);
    while i < dirs.len()
        invariant
            i <= dirs.len(),
            lines == folder_lines(crate::sort::views(dirs@), style@),
            crate::sort::views(out@) == was + lines.take(i as int),
        decreases dirs.len() - i,
    {
        let d = &dirs[i];
        push_line(out, show_sized(d.size, d.path.display(style).as_str()));
        assert(was + lines.take(i + 1) =~= (was + lines.take(i as int)).push(lines[i as int]));
        i += 1;
    }
    assert(lines.take(i as int) =~= lines);
}

/// A line for each file.
pub open spec fn file_lines(files: Seq<FileRec>, style: Style) -> Seq<Seq<char>> {
    Seq::new(
        files.len(),
        |i: int| sized_line(files[i].size, crate::shown::path_text(files[i].path, style)),
    )
}

fn push_files(out: &mut Vec<String>, files: &Vec<FileEntry>, style: &PathStyle)
    ensures
        crate::sort::views(final(out)@) == crate::sort::views(old(out)@) + file_lines(
            crate::sort::views(files@),
            style@,
        ),
{
    let ghost was = crate::sort::views(out@);
    let ghost lines = file_lines(crate::sort::views(files@), style@);
    let mut i: usize = 0;
    assert(was + lines.take(0) =~= was);
    while i < files.len()
        invariant
            i <= files.len(),
            lines == file_lines(crate::sort::views(files@), style@),
            crate::sort::views(out@) == was + lines.take(i as int),
        decreases files.len() - i,
    {
        let f = &files[i];
        push_line(out, show_sized(f.size, f.path.display(style).as_str()));
        assert(was + lines.take(i + 1) =~= (was + lines.take(i as int)).push(lines[i as int]));
        i += 1;
    }
    assert(lines.take(i as int) =~= lines);
}

/// One line, or none.
pub open spec fn line_if(cond: bool, line: Seq<char>) -> Seq<Seq<char>> {
    if cond {
        seq![line]
    } else {
        Seq::empty()
    }
}

/// The lines that show a scan.
pub open spec fn scan_text(r: ScanReport, style: Style) -> Seq<Seq<char>> {
    seq![
        "Scan of "@ + crate::shown::path_text(r.root@, style),
        "  total: "@ + crate::size::human_text(r.total_size) + " across "@
            + crate::decimal::decimal(r.total_files as nat) + " files in "@
            + crate::decimal::decimal(r.total_dirs as nat) + " dirs"@,
    ] + line_if(
        r.skipped > 0,
        "  skipped: "@ + crate::decimal::decimal(r.skipped as nat)
            + " unreadable entries (permissions?)"@,
    ) + seq![""@, "Biggest sub-folders:"@] + folder_lines(crate::sort::views(r.children@), style)
        + line_if(
        r.root_files_count > 0,
        sized_line(
            r.root_files_size,
            "("@ + crate::decimal::decimal(r.root_files_count as nat)
                + " file(s) directly in root)"@,
        ),
    ) + seq![""@, "Biggest files:"@] + file_lines(crate::sort::views(r.top_files@), style)
}

/// The lines that show a scan.
pub fn print_scan(r: &ScanReport, style: &PathStyle) -> (out: Vec<String>)
    ensures
        crate::sort::views(out@) == scan_text(*r, style@),
{
    let mut out: Vec<String> = Vec::new();
    let mut line = "Scan of ".to_owned();
    line.append(r.root.display(style).as_str());
    push_line(&mut out, line);
    let mut line = "  total: ".to_owned();
    line.append(crate::size::human_size(r.total_size).as_str());
    line.append(" across ");
    line.append(crate::decimal::decimal_text(r.total_files).as_str());
    line.append(" files in ");
    line.append(crate::decimal::decimal_text(r.total_dirs).as_str());
    line.append(" dirs");
    push_line(&mut out, line);
    if r.skipped > 0 {
        let mut line = "  skipped: ".to_owned();
        line.append(crate::decimal::decimal_text(r.skipped).as_str());
        line.append(" unreadable entries (permissions?)");
        push_line(&mut out, line);
    }
    push_line(&mut out, "".to_owned());
    push_line(&mut out, "Biggest sub-folders:".to_owned());
    push_folders(&mut out, &r.children, style);
    if r.root_files_count > 0 {
        let mut what = "(".to_owned();
        what.append(crate::decimal::decimal_text(r.root_files_count).as_str());
        what.append(" file(s) directly in root)");
        push_line(&mut out, show_sized(r.root_files_size, what.as_str()));
    }
    push_line(&mut out, "".to_owned());
    push_line(&mut out, "Biggest files:".to_owned());
    push_files(&mut out, &r.top_files, style);
    assert(crate::sort::views(out@) =~= scan_text(*r, style@));
    out
}

/// The bytes that all groups together waste.
pub open spec fn total_wasted(groups: Seq<GroupRec>) -> nat
    decreases groups.len(),
{
    if groups.len() == 0 {
        0
    } else {
        total_wasted(groups.drop_last()) + groups.last().wasted as nat
    }
}

/// The first twelve bytes of a hash.
pub open spec fn short_hash(hash: Seq<char>) -> Seq<char> {
    vstd::utf8::decode_utf8(vstd::utf8::encode_utf8(hash).subrange(0, 12))
}

/// The hash can be cut after twelve bytes.
pub open spec fn can_shorten(g: GroupRec) -> bool {
    vstd::utf8::is_char_boundary(vstd::utf8::encode_utf8(g.hash), 12)
}

/// A line for each path.
pub open spec fn path_lines(paths: Seq<Seq<Part>>, style: Style) -> Seq<Seq<char>> {
    Seq::new(paths.len(), |i: int| "      "@ + crate::shown::path_text(paths[i], style))
}

/// The lines that show a group.
pub open spec fn group_text(g: GroupRec, style: Style) -> Seq<Seq<char>> {
    seq![
        "  "@ + crate::decimal::decimal(g.files.len()) + " x "@ + crate::size::human_text(g.size)
            + " ("@ + crate::size::human_text(g.wasted) + " wasted) ["@ + short_hash(g.hash)
            + "]"@,
    ] + path_lines(g.files, style) + seq![""@]
}

/// The lines that show some groups, one after the other.
pub open spec fn group_texts(groups: Seq<GroupRec>, style: Style) -> Seq<Seq<char>>
    decreases groups.len(),
{
    if groups.len() == 0 {
        Seq::empty()
    } else {
        group_texts(groups.drop_last(), style) + group_text(groups.last(), style)
    }
}

/// The lines that show duplicates.
pub open spec fn dupes_text(groups: Seq<GroupRec>, style: Style) -> Seq<Seq<char>> {
    if groups.len() == 0 {
        seq!["No duplicates found."@]
    } else {
        seq![
            "Found "@ + crate::decimal::decimal(groups.len()) + " duplicate group(s) — "@
                + crate::size::human_text(total_wasted(groups) as u64) + " reclaimable:"@,
            ""@,
        ] + group_texts(groups, style)
    }
}

fn push_paths(out: &mut Vec<String>, paths: &Vec<FilePath>, style: &PathStyle)
    ensures
        crate::sort::views(final(out)@) == crate::sort::views(old(out)@) + path_lines(
            crate::sort::views(paths@),
            style@,
        ),
{
    let ghost was = crate::sort::views(out@);
    let ghost lines = path_lines(crate::sort::views(paths@), style@);
    let mut i: usize = 0;
    assert(was + lines.take(0) =~= was);
    while i < paths.len()
        invariant
            i <= paths.len(),
            lines == path_lines(crate::sort::views(paths@), style@),
            crate::sort::views(out@) == was + lines.take(i as int),
        decreases paths.len() - i,
    {
        let mut line = "      ".to_owned();
        line.append(paths[i].display(style).as_str());
        push_line(out, line);
        assert(was + lines.take(i + 1) =~= (was + lines.take(i as int)).push(lines[i as int]));
        i += 1;
    }
    assert(lines.take(i as int) =~= lines);
}

fn push_group(out: &mut Vec<String>, g: &DupGroup, style: &PathStyle)
    requires
        can_shorten(g@),
    ensures
        crate::sort::views(final(out)@) == crate::sort::views(old(out)@) + group_text(g@, style@),
{
    let ghost was = crate::sort::views(out@);
    let (head, _) = g.hash.as_str().split_at(12);
    proof {
        vstd::utf8::encode_utf8_decode_utf8(head@);
        assert(head@ == short_hash(g@.hash));
    }
    let mut line = "  ".to_owned();
    line.append(crate::decimal::decimal_text(g.files.len() as u64).as_str());
    line.append(" x ");
    line.append(crate::size::human_size(g.size).as_str());
    line.append(" (");
    line.append(crate::size::human_size(g.wasted).as_str());
    line.append(" wasted) [");
    line.append(head);
    line.append("]");
    push_line(out, line);
    push_paths(out, &g.files, style);
    push_line(out, "".to_owned());
    assert(crate::sort::views(out@) =~= was + group_text(g@, style@));
}

proof fn lemma_wasted_take(groups: Seq<GroupRec>, n: int)
    requires
        0 <= n <= groups.len(),
    ensures
        total_wasted(groups.take(n)) <= total_wasted(groups),
    decreases groups.len() - n,
{
    if n < groups.len() {
        lemma_wasted_take(groups, n + 1);
        assert(groups.take(n + 1).drop_last() =~= groups.take(n));
    } else {
        assert(groups.take(n) =~= groups);
    }
}

/// The lines that show duplicates.
pub fn print_dupes(groups: &Vec<DupGroup>, style: &PathStyle) -> (out: Vec<String>)
    requires
        total_wasted(crate::sort::views(groups@)) <= u64::MAX,
        forall|i: int| 0 <= i < groups@.len() ==> can_shorten((#[trigger] groups@[i])@),
    ensures
        crate::sort::views(out@) == dupes_text(crate::sort::views(groups@), style@),
{
    let ghost all = crate::sort::views(groups@);
    let mut out: Vec<String> = Vec::new();
    if groups.len() == 0 {
        push_line(&mut out, "No duplicates found.".to_owned());
        assert(crate::sort::views(out@) =~= dupes_text(all, style@));
        return out;
    }
    let mut total: u64 = 0;
    let mut i: usize = 0;
    assert(all.take(0) =~= Seq::<GroupRec>::empty());
    while i < groups.len()
        invariant
            i <= groups.len(),
            all == crate::sort::views(groups@),
            total_wasted(all) <= u64::MAX,
            total == total_wasted(all.take(i as int)),
        decreases groups.len() - i,
    {
        proof {
            lemma_wasted_take(all, i + 1);
            assert(all.take(i + 1).drop_last() =~= all.take(i as int));
            assert(all.take(i + 1).last() == groups@[i as int]@);
        }
        total += groups[i].wasted;
        i += 1;
    }
    assert(all.take(i as int) =~= all);
    let mut line = "Found ".to_owned();
    line.append(crate::decimal::decimal_text(groups.len() as u64).as_str());
    line.append(" duplicate group(s) — ");
    line.append(crate::size::human_size(total).as_str());
    line.append(" reclaimable:");
    push_line(&mut out, line);
    push_line(&mut out, "".to_owned());
    let ghost head = crate::sort::views(out@);
    let mut i: usize = 0;
    assert(head + group_texts(all.take(0), style@) =~= head) by {
        assert(all.take(0) =~= Seq::<GroupRec>::empty());
    }
    while i < groups.len()
        invariant
            i <= groups.len(),
            all == crate::sort::views(groups@),
            forall|i: int| 0 <= i < groups@.len() ==> can_shorten((#[trigger] groups@[i])@),
            crate::sort::views(out@) == head + group_texts(all.take(i as int), style@),
        decreases groups.len() - i,
    {
        push_group(&mut out, &groups[i], style);
        proof {
            assert(all.take(i + 1).drop_last() =~= all.take(i as int));
            assert(all.take(i + 1).last() == groups@[i as int]@);
            assert(crate::sort::views(out@) =~= head + group_texts(all.take(i + 1), style@));
        }
        i += 1;
    }
    assert(all.take(i as int) =~= all);
    assert(crate::sort::views(out@) =~= dupes_text(all, style@));
    out
}

/// A line for each message.
pub open spec fn error_lines(errors: Seq<Seq<char>>) -> Seq<Seq<char>> {
    Seq::new(errors.len(), |i: int| "  ! "@ + errors[i])
}

/// The lines that show some messages.
pub fn print_errors(errors: &Vec<String>) -> (out: Vec<String>)
    ensures
        crate::sort::views(out@) == error_lines(crate::sort::views(errors@)),
{
    let mut out: Vec<String> = Vec::new();
    let ghost lines = error_lines(crate::sort::views(errors@));
    let mut i: usize = 0;
    assert(crate::sort::views(out@) =~= lines.take(0));
    while i < errors.len()
        invariant
            i <= errors.len(),
            lines == error_lines(crate::sort::views(errors@)),
            crate::sort::views(out@) == lines.take(i as int),
        decreases errors.len() - i,
    {
        let mut line = "  ! ".to_owned();
        line.append(errors[i].as_str());
        push_line(&mut out, line);
        assert(lines.take(i + 1) =~= lines.take(i as int).push(lines[i as int]));
        i += 1;
    }
    assert(lines.take(i as int) =~= lines);
    out
}

/// What was or would be removed.
pub open spec fn removal_text(r: RemoveReport) -> Seq<char> {
    crate::decimal::decimal(r.files as nat) + " file(s), "@ + crate::decimal::decimal(
        r.dirs as nat,
    ) + " dir(s), "@ + crate::size::human_text(r.bytes)
}

/// Where what is removed goes.
pub open spec fn destination(trash: bool) -> Seq<char> {
    if trash {
        "trash"@
    } else {
        "delete"@
    }
}

/// The lines that show a removal.
pub open spec fn remove_text(r: RemoveReport, trash: bool, style: Style) -> Seq<Seq<char>> {
    if r.dry_run {
        seq![
            "DRY-RUN ["@ + destination(trash) + "] "@ + crate::shown::path_text(r.root@, style)
                + ": would remove "@ + removal_text(r),
            "  pass --apply to actually remove"@,
        ]
    } else {
        seq![
            "["@ + destination(trash) + "] "@ + crate::shown::path_text(r.root@, style)
                + ": removed "@ + removal_text(r),
        ]
    }
}

/// The lines that show what went wrong in a removal.
pub open spec fn remove_errors_text(r: RemoveReport) -> Seq<Seq<char>> {
    error_lines(crate::sort::views(r.errors@)) + line_if(
        r.errors@.len() > 0,
        "  "@ + crate::decimal::decimal(r.errors@.len()) + " error(s)"@,
    )
}

fn show_removal(r: &RemoveReport) -> (text: String)
    ensures
        text@ == removal_text(*r),
{
    let mut text = crate::decimal::decimal_text(r.files);
    text.append(" file(s), ");
    text.append(crate::decimal::decimal_text(r.dirs).as_str());
    text.append(" dir(s), ");
    text.append(crate::size::human_size(r.bytes).as_str());
    text
}

/// The lines that show a removal, for standard output and for standard error.
pub fn print_remove(r: &RemoveReport, trash: bool, style: &PathStyle) -> (out: (Vec<String>, Vec<String>))
    ensures
        crate::sort::views(out.0@) == remove_text(*r, trash, style@),
        crate::sort::views(out.1@) == remove_errors_text(*r),
{
    let dest: &str = if trash {
        "trash"
    } else {
        "delete"
    };
    let what = show_removal(r);
    let mut out: Vec<String> = Vec::new();
    if r.dry_run {
        let mut line = "DRY-RUN [".to_owned();
        line.append(dest);
        line.append("] ");
        line.append(r.root.display(style).as_str());
        line.append(": would remove ");
        line.append(what.as_str());
        push_line(&mut out, line);
        push_line(&mut out, "  pass --apply to actually remove".to_owned());
    } else {
        let mut line = "[".to_owned();
        line.append(dest);
        line.append("] ");
        line.append(r.root.display(style).as_str());
        line.append(": removed ");
        line.append(what.as_str());
        push_line(&mut out, line);
    }
    assert(crate::sort::views(out@) =~= remove_text(*r, trash, style@));
    let mut errors = print_errors(&r.errors);
    if r.errors.len() > 0 {
        let mut line = "  ".to_owned();
        line.append(crate::decimal::decimal_text(r.errors.len() as u64).as_str());
        line.append(" error(s)");
        push_line(&mut errors, line);
    }
    assert(crate::sort::views(errors@) =~= remove_errors_text(*r));
    (out, errors)
}

/// The lines that sum up a reclaim over all groups.
pub open spec fn reclaim_text(r: ReclaimReport) -> Seq<Seq<char>> {
    let mode = if r.dry_run {
        "DRY-RUN — nothing changed; pass --apply to act"@
    } else {
        "applied"@
    };
    let line = "Reclaim ["@ + mode + "]: "@ + crate::decimal::decimal(r.removed as nat)
        + " file(s), "@ + crate::size::human_text(r.reclaimed) + " reclaimable"@;
    seq![
        ""@,
        if r.errors@.len() > 0 {
            line + ", "@ + crate::decimal::decimal(r.errors@.len()) + " error(s)"@
        } else {
            line
        },
    ]
}

/// The lines that sum up a reclaim over all groups.
pub fn print_reclaim(r: &ReclaimReport) -> (out: Vec<String>)
    ensures
        crate::sort::views(out@) == reclaim_text(*r),
{
    let mode: &str = if r.dry_run {
        "DRY-RUN — nothing changed; pass --apply to act"
    } else {
        "applied"
    };
    let mut line = "Reclaim [".to_owned();
    line.append(mode);
    line.append("]: ");
    line.append(crate::decimal::decimal_text(r.removed as u64).as_str());
    line.append(" file(s), ");
    line.append(crate::size::human_size(r.reclaimed).as_str());
    line.append(" reclaimable");
    if r.errors.len() > 0 {
        line.append(", ");
        line.append(crate::decimal::decimal_text(r.errors.len() as u64).as_str());
        line.append(" error(s)");
    }
    let mut out: Vec<String> = Vec::new();
    push_line(&mut out, "".to_owned());
    push_line(&mut out, line);
    assert(crate::sort::views(out@) =~= reclaim_text(*r));
    out
}

/// A change of size, with its sign.
pub open spec fn change_text(delta: i64) -> Seq<char> {
    if delta < 0 {
        "-"@ + crate::size::human_text((-delta) as u64)
    } else {
        "+"@ + crate::size::human_text(delta as u64)
    }
}

/// A change of a number of files, with its sign.
pub open spec fn count_text(delta: i64) -> Seq<char> {
    if delta < 0 {
        "-"@ + crate::decimal::decimal((-delta) as nat)
    } else {
        "+"@ + crate::decimal::decimal(delta as nat)
    }
}

/// The size of a signed number.
fn magnitude(delta: i64) -> (r: u64)
    ensures
        r == if delta < 0 {
            -delta
        } else {
            delta as int
        },
{
    if delta >= 0 {
        delta as u64
    } else {
        (-((delta + 1)) as u64) + 1
    }
}

fn show_change(delta: i64) -> (r: String)
    ensures
        r@ == change_text(delta),
{
    let mut r = if delta < 0 {
        "-".to_owned()
    } else {
        "+".to_owned()
    };
    r.append(crate::size::human_size(magnitude(delta)).as_str());
    r
}

fn show_count(delta: i64) -> (r: String)
    ensures
        r@ == count_text(delta),
{
    let mut r = if delta < 0 {
        "-".to_owned()
    } else {
        "+".to_owned()
    };
    r.append(crate::decimal::decimal_text(magnitude(delta)).as_str());
    r
}

/// A line for each changed folder.
pub open spec fn change_lines(deltas: Seq<DeltaRec>, style: Style) -> Seq<Seq<char>> {
    Seq::new(
        deltas.len(),
        |i: int|
            "  "@ + crate::decimal::pad_left(change_text(deltas[i].delta), ' ', 11) + "  "@
                + crate::shown::path_text(deltas[i].path, style),
    )
}

fn push_changes(out: &mut Vec<String>, deltas: &Vec<DirDelta>, style: &PathStyle)
    ensures
        crate::sort::views(final(out)@) == crate::sort::views(old(out)@) + change_lines(
            crate::sort::views(deltas@),
            style@,
        ),
{
    let ghost was = crate::sort::views(out@);
    let ghost lines = change_lines(crate::sort::views(deltas@), style@);
    let mut i: usize = 0;
    assert(was + lines.take(0) =~= was);
    while i < deltas.len()
        invariant
            i <= deltas.len(),
            lines == change_lines(crate::sort::views(deltas@), style@),
            crate::sort::views(out@) == was + lines.take(i as int),
        decreases deltas.len() - i,
    {
        proof {
            reveal_strlit(" ");
        }
        let d = &deltas[i];
        let mut line = "  ".to_owned();
        line.append(crate::decimal::pad(show_change(d.delta).as_str(), " ", 11).as_str());
        line.append("  ");
        line.append(d.path.display(style).as_str());
        push_line(out, line);
        assert(was + lines.take(i + 1) =~= (was + lines.take(i as int)).push(lines[i as int]));
        i += 1;
    }
    assert(lines.take(i as int) =~= lines);
}

/// A heading and what is below it, or nothing if there is nothing below it.
pub open spec fn section(heading: Seq<char>, lines: Seq<Seq<char>>) -> Seq<Seq<char>> {
    if lines.len() == 0 {
        Seq::empty()
    } else {
        seq![heading] + lines
    }
}

/// The first line of a comparison.
pub open spec fn diff_head(r: DiffReport, style: Style) -> Seq<char> {
    "Changes in "@ + crate::shown::path_text(r.root@, style) + " ("@
        + crate::calendar::timestamp_text(r.old_taken_at) + " -> "@
        + crate::calendar::timestamp_text(r.new_taken_at) + ")"@
}

/// How the whole directory changed.
pub open spec fn diff_total(r: DiffReport) -> Seq<char> {
    "  total: "@ + crate::size::human_text(r.old_size) + " -> "@ + crate::size::human_text(
        r.new_size,
    ) + " ("@ + change_text(r.delta) + ", "@ + count_text(r.files_delta) + " file(s))"@
}

/// The lines that show what changed between two snapshots.
pub open spec fn diff_text(r: DiffReport, style: Style) -> Seq<Seq<char>> {
    if r@.unchanged() {
        seq![diff_head(r, style), "  nothing changed"@]
    } else {
        seq![diff_head(r, style), diff_total(r)] + section("Grew:"@, change_lines(r@.grown, style))
            + section("Shrank:"@, change_lines(r@.shrunk, style)) + section(
            "New folders:"@,
            folder_lines(r@.added, style),
        ) + section("Removed folders:"@, folder_lines(r@.removed, style))
    }
}

fn show_diff_head(r: &DiffReport, style: &PathStyle) -> (line: String)
    ensures
        line@ == diff_head(*r, style@),
{
    let mut line = "Changes in ".to_owned();
    line.append(r.root.display(style).as_str());
    line.append(" (");
    line.append(crate::calendar::format_timestamp(r.old_taken_at).as_str());
    line.append(" -> ");
    line.append(crate::calendar::format_timestamp(r.new_taken_at).as_str());
    line.append(")");
    line
}

fn show_diff_total(r: &DiffReport) -> (line: String)
    ensures
        line@ == diff_total(*r),
{
    let mut line = "  total: ".to_owned();
    line.append(crate::size::human_size(r.old_size).as_str());
    line.append(" -> ");
    line.append(crate::size::human_size(r.new_size).as_str());
    line.append(" (");
    line.append(show_change(r.delta).as_str());
    line.append(", ");
    line.append(show_count(r.files_delta).as_str());
    line.append(" file(s))");
    line
}

fn push_change_section(out: &mut Vec<String>, heading: &str, deltas: &Vec<DirDelta>, style: &PathStyle)
    ensures
        crate::sort::views(final(out)@) == crate::sort::views(old(out)@) + section(
            heading@,
            change_lines(crate::sort::views(deltas@), style@),
        ),
{
    let ghost was = crate::sort::views(out@);
    if deltas.len() > 0 {
        push_line(out, heading.to_owned());
        push_changes(out, deltas, style);
    }
    assert(crate::sort::views(out@) =~= was + section(
        heading@,
        change_lines(crate::sort::views(deltas@), style@),
    ));
}

fn push_folder_section(out: &mut Vec<String>, heading: &str, dirs: &Vec<DirSize>, style: &PathStyle)
    ensures
        crate::sort::views(final(out)@) == crate::sort::views(old(out)@) + section(
            heading@,
            folder_lines(crate::sort::views(dirs@), style@),
        ),
{
    let ghost was = crate::sort::views(out@);
    if dirs.len() > 0 {
        push_line(out, heading.to_owned());
        push_folders(out, dirs, style);
    }
    assert(crate::sort::views(out@) =~= was + section(
        heading@,
        folder_lines(crate::sort::views(dirs@), style@),
    ));
}

/// The lines that show what changed between two snapshots.
pub fn print_diff(r: &DiffReport, style: &PathStyle) -> (out: Vec<String>)
    ensures
        crate::sort::views(out@) == diff_text(*r, style@),
{
    let mut out: Vec<String> = Vec::new();
    push_line(&mut out, show_diff_head(r, style));
    if r.is_unchanged() {
        push_line(&mut out, "  nothing changed".to_owned());
        assert(crate::sort::views(out@) =~= diff_text(*r, style@));
        return out;
    }
    push_line(&mut out, show_diff_total(r));
    assert(crate::sort::views(out@) =~= seq![diff_head(*r, style@), diff_total(*r)]);
    push_change_section(&mut out, "Grew:", &r.grown, style);
    push_change_section(&mut out, "Shrank:", &r.shrunk, style);
    push_folder_section(&mut out, "New folders:", &r.added, style);
    push_folder_section(&mut out, "Removed folders:", &r.removed, style);
    out
}

/// Texts, one after the other with `", "` between them.
pub open spec fn comma_separated(texts: Seq<Seq<char>>) -> Seq<char>
    decreases texts.len(),
{
    if texts.len() == 0 {
        Seq::empty()
    } else if texts.len() == 1 {
        texts[0]
    } else {
        comma_separated(texts.drop_last()) + ", "@ + texts.last()
    }
}

/// Warns of exclude patterns that are ignored because they are no globs; `None` if there
/// are none.
pub fn warn_invalid_globs(bad: &Vec<String>) -> (r: Option<String>)
    ensures
        (match r {
            Some(text) => bad@.len() > 0 && text@ == "warning: ignoring invalid exclude glob(s): "@
                + comma_separated(crate::sort::views(bad@)),
            None => bad@.len() == 0,
        }),
{
    if bad.len() == 0 {
        return None;
    }
    let ghost all = crate::sort::views(bad@);
    let mut list = bad[0].clone();
    let mut i: usize = 1;
    assert(list@ == comma_separated(all.take(1)));
    while i < bad.len()
        invariant
            1 <= i <= bad.len(),
            all == crate::sort::views(bad@),
            list@ == comma_separated(all.take(i as int)),
        decreases bad.len() - i,
    {
        proof {
            assert(all.take(i + 1).drop_last() =~= all.take(i as int));
            assert(all.take(i + 1).last() == bad@[i as int]@);
        }
        list.append(", ");
        list.append(bad[i].as_str());
        i += 1;
    }
    assert(all.take(i as int) =~= all);
    let mut text = "warning: ignoring invalid exclude glob(s): ".to_owned();
    text.append(list.as_str());
    Some(text)
}

/// The line shown while an operation runs.
pub fn progress_line(progress: &Progress) -> (r: String)
    ensures
        r@ == "  working… "@ + crate::decimal::decimal(progress@.files as nat) + " files, "@
            + crate::size::human_text(progress@.bytes) + "   "@,
{
    let mut line = "  working… ".to_owned();
    line.append(crate::decimal::decimal_text(progress.files()).as_str());
    line.append(" files, ");
    line.append(crate::size::human_size(progress.bytes()).as_str());
    line.append("   ");
    line
}

/// Why a path cannot be scanned, if it cannot; `shown` is what it is called.
pub fn refuse_scan(is_dir: bool, shown: &str) -> (r: Option<String>)
    ensures
        (match r {
            Some(text) => !is_dir && text@ == "not a directory: "@ + shown@,
            None => is_dir,
        }),
{
    if is_dir {
        return None;
    }
    let mut text = "not a directory: ".to_owned();
    text.append(shown);
    Some(text)
}

/// Why a path must not be removed, if it must not; `shown` is what it is called. A path
/// that lies in no directory is the root of a filesystem or drive, and is refused so that
/// a stray command cannot remove the volume.
pub fn refuse_removal(path: &FilePath, exists: bool, shown: &str) -> (r: Option<String>)
    ensures
        (match r {
            Some(text) => if !exists {
                text@ == "no such path: "@ + shown@
            } else {
                crate::path::parent_of(path@) is None && text@
                    == "refusing to remove a filesystem root: "@ + shown@
            },
            None => exists && crate::path::parent_of(path@) is Some,
        }),
{
    if !exists {
        let mut text = "no such path: ".to_owned();
        text.append(shown);
        return Some(text);
    }
    match path.parent() {
        Some(_) => None,
        None => {
            let mut text = "refusing to remove a filesystem root: ".to_owned();
            text.append(shown);
            Some(text)
        },
    }
}

/// The bytes of a number of megabytes.
pub fn megabytes(mb: u64) -> (r: u64)
    requires
        mb * 1024 * 1024 <= u64::MAX,
    ensures
        r == mb * 1024 * 1024,
{
    mb * 1024 * 1024
}

/// What is said of a snapshot that could not be read, written or compared.
pub open spec fn snapshot_error_text(e: SnapshotError, style: Style) -> Seq<char> {
    match e {
        SnapshotError::Io(text) => text@,
        SnapshotError::Json(text) => "invalid snapshot: "@ + text@,
        SnapshotError::Format(v) => "unsupported snapshot format "@ + crate::decimal::decimal(
            v as nat,
        ) + " (this build reads format "@ + crate::decimal::decimal(
            crate::snapshot::SNAPSHOT_FORMAT as nat,
        ) + ")"@,
        SnapshotError::RootMismatch { old, new } => "snapshots are of different directories: "@
            + crate::shown::path_text(old@, style) + " vs "@ + crate::shown::path_text(new@, style),
        SnapshotError::NotInSnapshot(p) => "not a directory in the snapshot: "@
            + crate::shown::path_text(p@, style),
    }
}

impl SnapshotError {
    /// What is said of the error.
    pub fn message(&self, style: &PathStyle) -> (r: String)
        ensures
            r@ == snapshot_error_text(*self, style@),
    {
        match self {
            SnapshotError::Io(text) => text.clone(),
            SnapshotError::Json(text) => {
                let mut r = "invalid snapshot: ".to_owned();
                r.append(text.as_str());
                r
            },
            SnapshotError::Format(v) => {
                let mut r = "unsupported snapshot format ".to_owned();
                r.append(crate::decimal::decimal_text(*v as u64).as_str());
                r.append(" (this build reads format ");
                r.append(
                    crate::decimal::decimal_text(
                        crate::snapshot::SNAPSHOT_FORMAT as u64,
                    ).as_str(),
                );
                r.append(")");
                r
            },
            SnapshotError::RootMismatch { old, new } => {
                let mut r = "snapshots are of different directories: ".to_owned();
                r.append(old.display(style).as_str());
                r.append(" vs ");
                r.append(new.display(style).as_str());
                r
            },
            SnapshotError::NotInSnapshot(p) => {
                let mut r = "not a directory in the snapshot: ".to_owned();
                r.append(p.display(style).as_str());
                r
            },
        }
    }
}

} // verus!
