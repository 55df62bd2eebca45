//! What the lines that are printed say.
use vstd::prelude::*;

use crate::dupes::GroupRec;
use crate::path::Part;
use crate::reclaim::ReclaimReport;
use crate::remove::RemoveReport;
use crate::report::{DirRec, FileRec, ScanReport};
use crate::shown::Style;
use crate::snapshot::{DeltaRec, DiffReport, SnapshotError};

verus! {

/// A line with a size: the size stands right-aligned in ten columns, two blanks before and two
/// behind it.
pub proof fn law_sizes_are_aligned(size: u64, what: Seq<char>)
    ensures
        crate::text::sized_line(size, what) == "  "@ + crate::decimal::pad_left(
            crate::size::human_text(size),
            ' ',
            10,
        ) + "  "@ + what,
{
}

/// Folders, files, paths and messages are shown one per line, in their order.
pub proof fn law_lists_are_shown_line_by_line(
    dirs: Seq<DirRec>,
    files: Seq<FileRec>,
    paths: Seq<Seq<Part>>,
    errors: Seq<Seq<char>>,
    style: Style,
    i: int,
)
    requires
        0 <= i,
    ensures
        crate::text::folder_lines(dirs, style).len() == dirs.len(),
        crate::text::file_lines(files, style).len() == files.len(),
        crate::text::path_lines(paths, style).len() == paths.len(),
        crate::text::error_lines(errors).len() == errors.len(),
        i < dirs.len() ==> crate::text::folder_lines(dirs, style)[i] == crate::text::sized_line(
            dirs[i].size,
            crate::shown::path_text(dirs[i].path, style),
        ),
        i < files.len() ==> crate::text::file_lines(files, style)[i] == crate::text::sized_line(
            files[i].size,
            crate::shown::path_text(files[i].path, style),
        ),
        i < paths.len() ==> crate::text::path_lines(paths, style)[i] == "      "@
            + crate::shown::path_text(paths[i], style),
        i < errors.len() ==> crate::text::error_lines(errors)[i] == "  ! "@ + errors[i],
{
}

/// A scan is shown by its totals, by what was skipped, if anything was, and by its biggest
/// folders and files; files that are directly in the root have a line if there are any.
pub proof fn law_a_scan_is_shown_in_full(r: ScanReport, style: Style)
    ensures
        ({
            let head = seq![
                "Scan of "@ + crate::shown::path_text(r.root@, style),
                "  total: "@ + crate::size::human_text(r.total_size) + " across "@
                    + crate::decimal::decimal(r.total_files as nat) + " files in "@
                    + crate::decimal::decimal(r.total_dirs as nat) + " dirs"@,
            ];
            let skipped = "  skipped: "@ + crate::decimal::decimal(r.skipped as nat)
                + " unreadable entries (permissions?)"@;
            let folders = seq![""@, "Biggest sub-folders:"@] + crate::text::folder_lines(
                crate::sort::views(r.children@),
                style,
            );
            let own = crate::text::sized_line(
                r.root_files_size,
                "("@ + crate::decimal::decimal(r.root_files_count as nat)
                    + " file(s) directly in root)"@,
            );
            let files = seq![""@, "Biggest files:"@] + crate::text::file_lines(
                crate::sort::views(r.top_files@),
                style,
            );
            let text = crate::text::scan_text(r, style);
            &&& r.skipped == 0 && r.root_files_count == 0 ==> text == head + folders + files
            &&& r.skipped == 0 && r.root_files_count > 0 ==> text == head + folders + seq![own]
                + files
            &&& r.skipped > 0 && r.root_files_count == 0 ==> text == head + seq![skipped] + folders
                + files
            &&& r.skipped > 0 && r.root_files_count > 0 ==> text == head + seq![skipped] + folders
                + seq![own] + files
        }),
{
    let a = seq![
        "Scan of "@ + crate::shown::path_text(r.root@, style),
        "  total: "@ + crate::size::human_text(r.total_size) + " across "@
            + crate::decimal::decimal(r.total_files as nat) + " files in "@
            + crate::decimal::decimal(r.total_dirs as nat) + " dirs"@,
    ];
    let b = crate::text::line_if(
        r.skipped > 0,
        "  skipped: "@ + crate::decimal::decimal(r.skipped as nat)
            + " unreadable entries (permissions?)"@,
    );
    let c = seq![""@, "Biggest sub-folders:"@];
    let d = crate::text::folder_lines(crate::sort::views(r.children@), style);
    let e = crate::text::line_if(
        r.root_files_count > 0,
        crate::text::sized_line(
            r.root_files_size,
            "("@ + crate::decimal::decimal(r.root_files_count as nat)
                + " file(s) directly in root)"@,
        ),
    );
    let f = seq![""@, "Biggest files:"@];
    let g = crate::text::file_lines(crate::sort::views(r.top_files@), style);
    assert(crate::text::scan_text(r, style) == a + b + c + d + e + f + g);
    assert(a + b + c + d + e + f + g =~= a + b + (c + d) + e + (f + g));
    assert(r.skipped == 0 ==> a + b =~= a);
    assert(r.root_files_count == 0 ==> a + b + (c + d) + e =~= a + b + (c + d));
}

/// The bytes wasted by all groups are summed up.
pub proof fn law_wasted_bytes_are_summed_up(groups: Seq<GroupRec>)
    ensures
        crate::text::total_wasted(groups) == groups.fold_left(
            0int,
            |sum: int, g: GroupRec| sum + g.wasted,
        ),
    decreases groups.len(),
{
    if groups.len() > 0 {
        law_wasted_bytes_are_summed_up(groups.drop_last());
    }
}

/// A hash of plain characters is cut after twelve of them.
pub proof fn law_hashes_are_cut_after_twelve_characters(hash: Seq<char>)
    requires
        hash.len() >= 12,
        vstd::utf8::is_ascii_chars(hash),
    ensures
        crate::text::short_hash(hash) == hash.take(12),
{
    vstd::utf8::is_ascii_chars_encode_utf8(hash);
    let bytes = vstd::utf8::encode_utf8(hash);
    let start = hash.take(12);
    assert(vstd::utf8::is_ascii_chars(start));
    vstd::utf8::is_ascii_chars_encode_utf8(start);
    assert(bytes.subrange(0, 12) =~= vstd::utf8::encode_utf8(start));
    vstd::utf8::encode_utf8_decode_utf8(start);
}

/// Groups of duplicates are shown one after the other: each by its number of files, their size,
/// what is wasted and the hash, and then by every path. Nothing to show is said so.
pub proof fn law_groups_are_shown_one_by_one(groups: Seq<GroupRec>, g: GroupRec, style: Style)
    ensures
        crate::text::group_text(g, style) == seq![
            "  "@ + crate::decimal::decimal(g.files.len()) + " x "@ + crate::size::human_text(g.size)
                + " ("@ + crate::size::human_text(g.wasted) + " wasted) ["@
                + crate::text::short_hash(g.hash) + "]"@,
        ] + crate::text::path_lines(g.files, style) + seq![""@],
        crate::text::group_texts(Seq::empty(), style).len() == 0,
        crate::text::group_texts(groups.push(g), style) == crate::text::group_texts(groups, style)
            + crate::text::group_text(g, style),
        crate::text::dupes_text(Seq::empty(), style) == seq!["No duplicates found."@],
        groups.len() > 0 ==> crate::text::dupes_text(groups, style) == seq![
            "Found "@ + crate::decimal::decimal(groups.len()) + " duplicate group(s) — "@
                + crate::size::human_text(crate::text::total_wasted(groups) as u64)
                + " reclaimable:"@,
            ""@,
        ] + crate::text::group_texts(groups, style),
{
    assert(groups.push(g).drop_last() =~= groups);
}

/// A removal is shown by where things go, by its path and by what was removed; a dry run says
/// that nothing was, and how to go on.
pub proof fn law_a_removal_is_shown_as_it_was(r: RemoveReport, trash: bool, style: Style)
    ensures
        ({
            let place = if trash {
                "trash"@
            } else {
                "delete"@
            };
            let what = crate::decimal::decimal(r.files as nat) + " file(s), "@
                + crate::decimal::decimal(r.dirs as nat) + " dir(s), "@ + crate::size::human_text(
                r.bytes,
            );
            let shown = crate::text::remove_text(r, trash, style);
            &&& r.dry_run ==> shown == seq![
                "DRY-RUN ["@ + place + "] "@ + crate::shown::path_text(r.root@, style)
                    + ": would remove "@ + what,
                "  pass --apply to actually remove"@,
            ]
            &&& !r.dry_run ==> shown == seq![
                "["@ + place + "] "@ + crate::shown::path_text(r.root@, style) + ": removed "@
                    + what,
            ]
        }),
        r.errors@.len() == 0 ==> crate::text::remove_errors_text(r).len() == 0,
        r.errors@.len() > 0 ==> crate::text::remove_errors_text(r) == crate::text::error_lines(
            crate::sort::views(r.errors@),
        ).push("  "@ + crate::decimal::decimal(r.errors@.len()) + " error(s)"@),
{
    let lines = crate::text::error_lines(crate::sort::views(r.errors@));
    let last = "  "@ + crate::decimal::decimal(r.errors@.len()) + " error(s)"@;
    assert(lines + seq![last] =~= lines.push(last));
}

/// A reclaim is summed up by the copies and the bytes, by the number of errors, if there were
/// any, and by whether anything was changed.
pub proof fn law_a_reclaim_is_shown_as_it_was(r: ReclaimReport)
    ensures
        ({
            let what = crate::decimal::decimal(r.removed as nat) + " file(s), "@
                + crate::size::human_text(r.reclaimed) + " reclaimable"@;
            let shown = crate::text::reclaim_text(r);
            let line = "Reclaim ["@ + if r.dry_run {
                "DRY-RUN — nothing changed; pass --apply to act"@
            } else {
                "applied"@
            } + "]: "@ + what;
            &&& shown.len() == 2
            &&& shown[0] == ""@
            &&& r.errors@.len() == 0 ==> shown[1] == line
            &&& r.errors@.len() > 0 ==> shown[1] == line + ", "@ + crate::decimal::decimal(
                r.errors@.len(),
            ) + " error(s)"@
        }),
{
    let what = crate::decimal::decimal(r.removed as nat) + " file(s), "@ + crate::size::human_text(
        r.reclaimed,
    ) + " reclaimable"@;
    let start = "Reclaim ["@ + if r.dry_run {
        "DRY-RUN — nothing changed; pass --apply to act"@
    } else {
        "applied"@
    } + "]: "@;
    assert(start + crate::decimal::decimal(r.removed as nat) + " file(s), "@
        + crate::size::human_text(r.reclaimed) + " reclaimable"@ =~= start + what);
}

/// A change has its sign before it: a plus where something grew or stayed, a minus where it
/// shrank.
pub proof fn law_changes_have_their_sign(delta: i64)
    ensures
        delta >= 0 ==> crate::text::change_text(delta) == "+"@ + crate::size::human_text(
            delta as u64,
        ),
        delta < 0 ==> crate::text::change_text(delta) == "-"@ + crate::size::human_text(
            (0 - delta) as u64,
        ),
        delta >= 0 ==> crate::text::count_text(delta) == "+"@ + crate::decimal::decimal(
            delta as nat,
        ),
        delta < 0 ==> crate::text::count_text(delta) == "-"@ + crate::decimal::decimal(
            (0 - delta) as nat,
        ),
{
}

/// Changed folders are shown one per line, the change right-aligned in eleven columns.
pub proof fn law_changes_are_shown_line_by_line(deltas: Seq<DeltaRec>, style: Style, i: int)
    requires
        0 <= i < deltas.len(),
    ensures
        crate::text::change_lines(deltas, style).len() == deltas.len(),
        crate::text::change_lines(deltas, style)[i] == "  "@ + crate::decimal::pad_left(
            crate::text::change_text(deltas[i].delta),
            ' ',
            11,
        ) + "  "@ + crate::shown::path_text(deltas[i].path, style),
{
}

/// A comparison is shown by the directory and the two times, by the totals, and by the folders
/// that grew, shrank, are new and are gone, each list under its heading and only if there is
/// something in it.
pub proof fn law_a_comparison_is_shown_in_full(r: DiffReport, style: Style)
    ensures
        ({
            let head = "Changes in "@ + crate::shown::path_text(r.root@, style) + " ("@
                + crate::calendar::timestamp_text(r.old_taken_at) + " -> "@
                + crate::calendar::timestamp_text(r.new_taken_at) + ")"@;
            let total = "  total: "@ + crate::size::human_text(r.old_size) + " -> "@
                + crate::size::human_text(r.new_size) + " ("@ + crate::text::change_text(r.delta)
                + ", "@ + crate::text::count_text(r.files_delta) + " file(s))"@;
            let text = crate::text::diff_text(r, style);
            &&& r@.unchanged() ==> text == seq![head, "  nothing changed"@]
            &&& !r@.unchanged() ==> text == seq![head, total] + crate::text::section(
                "Grew:"@,
                crate::text::change_lines(crate::sort::views(r.grown@), style),
            ) + crate::text::section(
                "Shrank:"@,
                crate::text::change_lines(crate::sort::views(r.shrunk@), style),
            ) + crate::text::section(
                "New folders:"@,
                crate::text::folder_lines(crate::sort::views(r.added@), style),
            ) + crate::text::section(
                "Removed folders:"@,
                crate::text::folder_lines(crate::sort::views(r.removed@), style),
            )
        }),
{
}

/// A heading stands above its lines, and nowhere without them.
pub proof fn law_headings_stand_above_something(heading: Seq<char>, lines: Seq<Seq<char>>)
    ensures
        lines.len() == 0 ==> crate::text::section(heading, lines).len() == 0,
        lines.len() > 0 ==> crate::text::section(heading, lines) == seq![heading] + lines,
{
}

/// Texts are listed with a comma and a blank between them.
pub proof fn law_texts_are_separated_by_commas(texts: Seq<Seq<char>>, text: Seq<char>)
    ensures
        crate::text::comma_separated(Seq::empty()).len() == 0,
        texts.len() == 0 ==> crate::text::comma_separated(texts.push(text)) == text,
        texts.len() > 0 ==> crate::text::comma_separated(texts.push(text))
            == crate::text::comma_separated(texts) + ", "@ + text,
{
    assert(texts.push(text).drop_last() =~= texts);
}

/// Every snapshot error is told by what went wrong and with what.
pub proof fn law_snapshot_errors_say_what_is_wrong(e: SnapshotError, style: Style)
    ensures
        ({
            let text = crate::text::snapshot_error_text(e, style);
            &&& e matches SnapshotError::Io(why) ==> text == why@
            &&& e matches SnapshotError::Json(why) ==> text == "invalid snapshot: "@ + why@
            &&& e matches SnapshotError::Format(v) ==> text == "unsupported snapshot format "@
                + crate::decimal::decimal(v as nat) + " (this build reads format "@
                + crate::decimal::decimal(1) + ")"@
            &&& e matches SnapshotError::RootMismatch { old, new } ==> text
                == "snapshots are of different directories: "@ + crate::shown::path_text(old@, style)
                + " vs "@ + crate::shown::path_text(new@, style)
            &&& e matches SnapshotError::NotInSnapshot(p) ==> text
                == "not a directory in the snapshot: "@ + crate::shown::path_text(p@, style)
        }),
{
}

} // verus!
