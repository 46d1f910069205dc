//! Showing what threads are about even where the diff says nothing.
//!
//! A thread is placed by where its lines are in the file (see `anchor`), not
//! by whether the diff happens to show them. So a view draws its diff *plus*
//! a few lines of context around every placed thread that the diff doesn't
//! show, taken from the full text of the version being viewed -- and, for a
//! file the diff doesn't touch at all, a file that is nothing but that
//! context.
//!
//! [`expand`] does that to a parsed diff; [`to_text`] writes the result back
//! out as unified diff text.

use crate::anchor::{diff_names, file_index, file_position, head_spec, Placement, ViewVersions};
use crate::diff::{
    files_view, hunks_view, lines_view, DiffLine, DiffLineV, FileDiff, FileDiffV, Hunk, HunkV,
    LineKind, UnifiedDiff,
};
use crate::digest::Blobs;
use crate::model::Side;
use crate::text::{
    chars_of, copy_string, decimal, decimal_of, has_prefix, is_str, lines_of, opt_view, push_char,
    push_chars, push_str, same_opt, same_string, split_lines, starts_with_str, string_of,
};
use vstd::prelude::*;

verus! {

/// Lines of context drawn on each side of a thread's lines.
pub const CONTEXT_RADIUS: u32 = 3;

/// What a placed thread needs the view to show.
#[derive(Debug, Clone, PartialEq, Eq)]
pub struct Want {
    pub file: String,
    /// The lines (inclusive) on `side`, or `None` for the file itself.
    pub lines: Option<(Side, u32, u32)>,
    /// The row the thread's card is drawn after, when it has lines.
    pub row: Option<(Side, u32)>,
}

/// The line a point is drawn after: the one before it, or the first line
/// for a point at the very top.
pub open spec fn row_before(before: u32) -> u32 {
    if before >= 2 {
        (before - 1) as u32
    } else {
        1
    }
}

/// What a placement needs shown: a line span shows its lines and is drawn
/// after its last; a point shows the lines on each side of it and is drawn
/// after the one before it; a file shows the file; the rest show nothing.
pub open spec fn want_spec(p: Placement) -> Option<(Seq<char>, Option<(Side, u32, u32)>, Option<(Side, u32)>)> {
    match p {
        Placement::Line { file, side, line_start, line_end, .. } => Some(
            (file@, Some((side, line_start, line_end)), Some((side, line_end))),
        ),
        Placement::Point { file, before, .. } => Some(
            (file@, Some((Side::New, row_before(before), before)), Some((Side::New, row_before(before)))),
        ),
        Placement::File(file) => Some((file@, None, None)),
        _ => None,
    }
}

/// What `placement` needs shown, if it is drawn on the view at all.
pub fn want_of(placement: &Placement) -> (r: Option<Want>)
    ensures
        match r {
            Some(w) => want_spec(*placement) == Some((w.file@, w.lines, w.row)),
            None => want_spec(*placement) is None,
        },
{
    match placement {
        Placement::Line { file, side, line_start, line_end, .. } => Some(
            Want {
                file: copy_string(file),
                lines: Some((*side, *line_start, *line_end)),
                row: Some((*side, *line_end)),
            },
        ),
        Placement::Point { file, before, .. } => {
            let row = if *before >= 2 {
                *before - 1
            } else {
                1
            };
            Some(
                Want {
                    file: copy_string(file),
                    lines: Some((Side::New, row, *before)),
                    row: Some((Side::New, row)),
                },
            )
        },
        Placement::File(file) => Some(Want { file: copy_string(file), lines: None, row: None }),
        _ => None,
    }
}

/// Whether a file has a row with line `line` on `side`.
pub open spec fn file_has_row(f: FileDiffV, side: Side, line: u32) -> bool {
    exists|i: int, j: int|
        0 <= i < f.hunks.len() && 0 <= j < f.hunks[i].lines.len() && match side {
            Side::New => (#[trigger] f.hunks[i].lines[j]).new_line == Some(line),
            Side::Old => f.hunks[i].lines[j].old_line == Some(line),
        }
}

/// Whether `diff` has what to draw a thread at: its file, and the row after
/// which its card goes.
pub open spec fn has_row_spec(files: Seq<FileDiffV>, file: Seq<char>, row: Option<(Side, u32)>) -> bool {
    match first_file(files, file) {
        None => false,
        Some(f) => match row {
            None => true,
            Some((side, line)) => file_has_row(f, side, line),
        },
    }
}

/// The first file of the diff that is `file`, by either of its paths.
pub open spec fn first_file(files: Seq<FileDiffV>, file: Seq<char>) -> Option<FileDiffV>
    decreases files.len(),
{
    if files.len() == 0 {
        None
    } else if files[0].new_path == Some(file) || files[0].old_path == Some(file) {
        Some(files[0])
    } else {
        first_file(files.drop_first(), file)
    }
}

pub proof fn lemma_first_file(files: Seq<FileDiff>, file: Seq<char>)
    ensures
        file_index(files, file) matches Some(i) ==> 0 <= i < files.len(),
        first_file(files_view(files), file) == match file_index(files, file) {
            Some(i) => Some(files[i]@),
            None => None,
        },
    decreases files.len(),
{
    if files.len() > 0 {
        assert(files_view(files)[0] == files[0]@);
        assert(files_view(files).drop_first() == files_view(files.drop_first()));
        lemma_first_file(files.drop_first(), file);
        if let Some(i) = file_index(files.drop_first(), file) {
            assert(files.drop_first()[i] == files[i + 1]);
        }
    }
}

/// Whether `diff` has what to draw a thread at: its file, and the row after
/// which its card goes.
pub fn has_row(diff: &UnifiedDiff, want: &Want) -> (r: bool)
    ensures
        r == has_row_spec(diff@, want.file@, want.row),
{
    proof {
        lemma_first_file(diff.files@, want.file@);
    }
    let i = match file_position(diff, want.file.as_str()) {
        None => {
            return false;
        },
        Some(i) => i,
    };
    let f = &diff.files[i];
    assert(first_file(diff@, want.file@) == Some(f@));
    let (side, line) = match want.row {
        None => {
            return true;
        },
        Some(x) => x,
    };
    let ghost fv = f@;
    for h in 0..f.hunks.len()
        invariant
            fv == f@,
            fv.hunks.len() == f.hunks@.len(),
            first_file(diff@, want.file@) == Some(fv),
            want.row == Some((side, line)),
            forall|a: int, b: int|
                0 <= a < h && 0 <= b < fv.hunks[a].lines.len() ==> !match side {
                    Side::New => (#[trigger] fv.hunks[a].lines[b]).new_line == Some(line),
                    Side::Old => fv.hunks[a].lines[b].old_line == Some(line),
                },
    {
        let hk = &f.hunks[h];
        for j in 0..hk.lines.len()
            invariant
                fv == f@,
                fv.hunks.len() == f.hunks@.len(),
                first_file(diff@, want.file@) == Some(fv),
                want.row == Some((side, line)),
                h < fv.hunks.len(),
                hk@ == fv.hunks[h as int],
                fv.hunks[h as int].lines.len() == hk.lines@.len(),
                forall|a: int, b: int|
                    0 <= a < h && 0 <= b < fv.hunks[a].lines.len() ==> !match side {
                        Side::New => (#[trigger] fv.hunks[a].lines[b]).new_line == Some(line),
                        Side::Old => fv.hunks[a].lines[b].old_line == Some(line),
                    },
                forall|b: int|
                    0 <= b < j ==> !match side {
                        Side::New => (#[trigger] fv.hunks[h as int].lines[b]).new_line == Some(line),
                        Side::Old => fv.hunks[h as int].lines[b].old_line == Some(line),
                    },
        {
            let l = &hk.lines[j];
            assert(fv.hunks.len() == f.hunks@.len());
            assert(fv.hunks[h as int].lines.len() == hk.lines@.len());
            assert(fv.hunks[h as int].lines[j as int] == l@);
            let hit = match side {
                Side::New => l.new_line == Some(line),
                Side::Old => l.old_line == Some(line),
            };
            if hit {
                assert(file_has_row(fv, side, line));
                return true;
            }
        }
    }
    false
}

// ---- equality of diffs -----------------------------------------------------------

fn same_line(a: &DiffLine, b: &DiffLine) -> (r: bool)
    ensures
        r == (a@ == b@),
{
    let kinds = match (a.kind, b.kind) {
        (LineKind::Context, LineKind::Context) => true,
        (LineKind::Added, LineKind::Added) => true,
        (LineKind::Removed, LineKind::Removed) => true,
        _ => false,
    };
    let olds = match (a.old_line, b.old_line) {
        (Some(x), Some(y)) => x == y,
        (None, None) => true,
        _ => false,
    };
    let news = match (a.new_line, b.new_line) {
        (Some(x), Some(y)) => x == y,
        (None, None) => true,
        _ => false,
    };
    kinds && olds && news && a.no_newline_at_eof == b.no_newline_at_eof && same_string(&a.content, &b.content)
}

fn same_lines(a: &Vec<DiffLine>, b: &Vec<DiffLine>) -> (r: bool)
    ensures
        r == (lines_view(a@) == lines_view(b@)),
{
    if a.len() != b.len() {
        assert(lines_view(a@).len() != lines_view(b@).len());
        return false;
    }
    for i in 0..a.len()
        invariant
            a@.len() == b@.len(),
            forall|j: int| 0 <= j < i ==> a@[j]@ == b@[j]@,
    {
        if !same_line(&a[i], &b[i]) {
            assert(lines_view(a@)[i as int] != lines_view(b@)[i as int]);
            return false;
        }
    }
    assert(lines_view(a@) =~= lines_view(b@));
    true
}

fn same_hunk(a: &Hunk, b: &Hunk) -> (r: bool)
    ensures
        r == (a@ == b@),
{
    let r = a.old_start == b.old_start && a.old_lines == b.old_lines && a.new_start == b.new_start
        && a.new_lines == b.new_lines && same_opt(&a.section_heading, &b.section_heading) && same_lines(
        &a.lines,
        &b.lines,
    );
    r
}

/// Whether two lists of hunks say the same.
pub fn same_hunks(a: &Vec<Hunk>, b: &Vec<Hunk>) -> (r: bool)
    ensures
        r == (hunks_view(a@) == hunks_view(b@)),
{
    if a.len() != b.len() {
        assert(hunks_view(a@).len() != hunks_view(b@).len());
        return false;
    }
    for i in 0..a.len()
        invariant
            a@.len() == b@.len(),
            forall|j: int| 0 <= j < i ==> a@[j]@ == b@[j]@,
    {
        if !same_hunk(&a[i], &b[i]) {
            assert(hunks_view(a@)[i as int] != hunks_view(b@)[i as int]);
            return false;
        }
    }
    assert(hunks_view(a@) =~= hunks_view(b@));
    true
}

fn same_file(a: &FileDiff, b: &FileDiff) -> (r: bool)
    ensures
        r == (a@ == b@),
{
    same_opt(&a.old_path, &b.old_path) && same_opt(&a.new_path, &b.new_path) && a.is_rename == b.is_rename
        && a.is_binary == b.is_binary && same_hunks(&a.hunks, &b.hunks)
}

/// Whether two diffs say the same.
pub fn same_diff(a: &UnifiedDiff, b: &UnifiedDiff) -> (r: bool)
    ensures
        r == (a@ == b@),
{
    if a.files.len() != b.files.len() {
        assert(a@.len() != b@.len());
        return false;
    }
    for i in 0..a.files.len()
        invariant
            a.files@.len() == b.files@.len(),
            forall|j: int| 0 <= j < i ==> a.files@[j]@ == b.files@[j]@,
    {
        if !same_file(&a.files[i], &b.files[i]) {
            assert(a@[i as int] != b@[i as int]);
            return false;
        }
    }
    assert(a@ =~= b@);
    true
}

// ---- writing a diff out ---------------------------------------------------------

/// A content line as unified diff writes it.
pub open spec fn line_text(l: DiffLineV) -> Seq<char> {
    let sign = match l.kind {
        LineKind::Context => ' ',
        LineKind::Added => '+',
        LineKind::Removed => '-',
    };
    seq![sign] + l.content + seq!['\n'] + if l.no_newline_at_eof {
        "\\ No newline at end of file\n"@
    } else {
        seq![]
    }
}

pub open spec fn lines_text(ls: Seq<DiffLineV>) -> Seq<char>
    decreases ls.len(),
{
    if ls.len() == 0 {
        seq![]
    } else {
        lines_text(ls.drop_last()) + line_text(ls.last())
    }
}

/// A hunk as unified diff writes it: its header, then its lines.
pub open spec fn hunk_text_spec(h: HunkV) -> Seq<char> {
    "@@ -"@ + decimal(h.old_start as nat) + ","@ + decimal(h.old_lines as nat) + " +"@ + decimal(
        h.new_start as nat,
    ) + ","@ + decimal(h.new_lines as nat) + " @@"@ + (match h.section_heading {
        Some(x) => seq![' '] + x,
        None => seq![],
    }) + seq!['\n'] + lines_text(h.lines)
}

pub open spec fn hunks_text(hs: Seq<HunkV>) -> Seq<char>
    decreases hs.len(),
{
    if hs.len() == 0 {
        seq![]
    } else {
        hunks_text(hs.drop_last()) + hunk_text_spec(hs.last())
    }
}

/// A hunk's header line.
pub open spec fn hunk_header_text(h: HunkV) -> Seq<char> {
    "@@ -"@ + decimal(h.old_start as nat) + ","@ + decimal(h.old_lines as nat) + " +"@ + decimal(
        h.new_start as nat,
    ) + ","@ + decimal(h.new_lines as nat) + " @@"@ + (match h.section_heading {
        Some(x) => seq![' '] + x,
        None => seq![],
    }) + seq!['\n']
}

fn hunk_header_into(h: &Hunk, out: &mut String)
    ensures
        final(out)@ == old(out)@ + hunk_header_text(h@),
{
    let ghost start = out@;
    push_str(out, "@@ -");
    let t = decimal_of(h.old_start as usize);
    push_str(out, t.as_str());
    push_str(out, ",");
    let t = decimal_of(h.old_lines as usize);
    push_str(out, t.as_str());
    push_str(out, " +");
    let t = decimal_of(h.new_start as usize);
    push_str(out, t.as_str());
    push_str(out, ",");
    let t = decimal_of(h.new_lines as usize);
    push_str(out, t.as_str());
    push_str(out, " @@");
    if let Some(heading) = &h.section_heading {
        push_char(out, ' ');
        push_str(out, heading.as_str());
    }
    push_char(out, '\n');
    assert(out@ =~= start + hunk_header_text(h@));
}

fn lines_text_into(ls: &Vec<DiffLine>, out: &mut String)
    ensures
        final(out)@ == old(out)@ + lines_text(lines_view(ls@)),
{
    let ghost head = out@;
    let ghost lv = lines_view(ls@);
    for i in 0..ls.len()
        invariant
            lv == lines_view(ls@),
            out@ == head + lines_text(lv.take(i as int)),
    {
        let l = &ls[i];
        let sign = match l.kind {
            LineKind::Context => ' ',
            LineKind::Added => '+',
            LineKind::Removed => '-',
        };
        push_char(out, sign);
        push_str(out, l.content.as_str());
        push_char(out, '\n');
        if l.no_newline_at_eof {
            push_str(out, "\\ No newline at end of file\n");
        }
        proof {
            assert(lv.take(i + 1).drop_last() == lv.take(i as int));
            assert(lv.take(i + 1).last() == l@);
            assert(out@ =~= head + lines_text(lv.take(i + 1)));
        }
    }
    assert(lv.take(lv.len() as int) == lv);
}

fn hunk_text(h: &Hunk, out: &mut String)
    ensures
        final(out)@ == old(out)@ + hunk_text_spec(h@),
{
    let ghost start = out@;
    hunk_header_into(h, out);
    lines_text_into(&h.lines, out);
    assert(out@ =~= start + hunk_text_spec(h@));
}

fn hunks_text_into(hs: &Vec<Hunk>, out: &mut String)
    ensures
        final(out)@ == old(out)@ + hunks_text(hunks_view(hs@)),
{
    let ghost start = out@;
    let ghost hv = hunks_view(hs@);
    for i in 0..hs.len()
        invariant
            hv == hunks_view(hs@),
            out@ == start + hunks_text(hv.take(i as int)),
    {
        hunk_text(&hs[i], out);
        proof {
            assert(hv.take(i + 1).drop_last() == hv.take(i as int));
            assert(hv.take(i + 1).last() == hs@[i as int]@);
            assert(out@ =~= start + hunks_text(hv.take(i + 1)));
        }
    }
    assert(hv.take(hv.len() as int) == hv);
}

/// Lines, each followed by a newline.
pub open spec fn terminated(ls: Seq<Seq<char>>) -> Seq<char>
    decreases ls.len(),
{
    if ls.len() == 0 {
        seq![]
    } else {
        terminated(ls.drop_last()) + ls.last() + seq!['\n']
    }
}

/// The text's lines cut into one section per `diff --git` line (each
/// starting with it); `None` if something comes before the first.
pub open spec fn sections_of(ls: Seq<Seq<char>>) -> Option<Seq<Seq<Seq<char>>>>
    decreases ls.len(),
{
    if ls.len() == 0 {
        Some(seq![])
    } else {
        match sections_of(ls.drop_last()) {
            None => None,
            Some(ss) => {
                let l = ls.last();
                let ss2 = if has_prefix(l, "diff --git "@) {
                    ss.push(seq![])
                } else {
                    ss
                };
                if ss2.len() == 0 {
                    None
                } else {
                    Some(ss2.update(ss2.len() - 1, ss2.last().push(l)))
                }
            },
        }
    }
}

/// Whether a line is a hunk header.
pub open spec fn is_hunk_header(l: Seq<char>) -> bool {
    has_prefix(l, "@@ "@) || l == "@@"@
}

/// Where a section's header ends: at its first hunk header.
pub open spec fn header_end(sec: Seq<Seq<char>>) -> int
    decreases sec.len(),
{
    if sec.len() == 0 {
        0
    } else if is_hunk_header(sec[0]) {
        0
    } else {
        1 + header_end(sec.drop_first())
    }
}

/// A file's section written back: verbatim if its hunks are unchanged, else
/// its header lines followed by its new hunks.
pub open spec fn section_text(sec: Seq<Seq<char>>, was: FileDiffV, now: FileDiffV) -> Seq<char> {
    if was.hunks == now.hunks {
        terminated(sec)
    } else {
        terminated(sec.take(header_end(sec))) + hunks_text(now.hunks)
    }
}

pub open spec fn sections_text(ss: Seq<Seq<Seq<char>>>, was: Seq<FileDiffV>, now: Seq<FileDiffV>, k: int) -> Seq<char>
    decreases k,
{
    if k <= 0 {
        seq![]
    } else {
        sections_text(ss, was, now, k - 1) + section_text(ss[k - 1], was[k - 1], now[k - 1])
    }
}

/// A file added for context, with its own header.
pub open spec fn added_file_text(p: Seq<char>, hunks: Seq<HunkV>) -> Seq<char> {
    "diff --git a/"@ + p + " b/"@ + p + "\n--- a/"@ + p + "\n+++ b/"@ + p + "\n"@ + hunks_text(hunks)
}

fn added_file_into(out: &mut String, path: &String, hunks: &Vec<Hunk>)
    ensures
        final(out)@ == old(out)@ + added_file_text(path@, hunks_view(hunks@)),
{
    let ghost start = out@;
    push_str(out, "diff --git a/");
    push_str(out, path.as_str());
    push_str(out, " b/");
    push_str(out, path.as_str());
    push_str(out, "\n--- a/");
    push_str(out, path.as_str());
    push_str(out, "\n+++ b/");
    push_str(out, path.as_str());
    push_str(out, "\n");
    hunks_text_into(hunks, out);
    assert(out@ =~= start + added_file_text(path@, hunks_view(hunks@)));
}

/// Files added for context, each written with its own header; `None` if one
/// has no path.
pub open spec fn extra_text(fs: Seq<FileDiffV>) -> Option<Seq<char>>
    decreases fs.len(),
{
    if fs.len() == 0 {
        Some(seq![])
    } else {
        match extra_text(fs.drop_last()) {
            None => None,
            Some(t) => {
                let f = fs.last();
                let path = match f.new_path {
                    Some(p) => Some(p),
                    None => f.old_path,
                };
                match path {
                    None => None,
                    Some(p) => Some(t + added_file_text(p, f.hunks)),
                }
            },
        }
    }
}

/// `expanded` written as unified diff text, keeping `text` (which
/// `original` was parsed from) verbatim wherever the diff wasn't changed and
/// each changed file's own header lines; `None` if the text doesn't split
/// into the files `original` has.
pub open spec fn to_text_spec(text: Seq<char>, original: Seq<FileDiffV>, expanded: Seq<FileDiffV>) -> Option<Seq<char>> {
    if expanded == original {
        Some(text)
    } else {
        match sections_of(lines_of(text)) {
            None => None,
            Some(ss) => if ss.len() != original.len() {
                None
            } else {
                match extra_text(expanded.skip(original.len() as int)) {
                    None => None,
                    Some(e) => Some(sections_text(ss, original, expanded, ss.len() as int) + e),
                }
            },
        }
    }
}

pub open spec fn opt_string_view(s: Option<String>) -> Option<Seq<char>> {
    match s {
        Some(x) => Some(x@),
        None => None,
    }
}

/// The sections as runs `[start, end)` of the lines `ls`.
pub open spec fn runs_view(runs: Seq<(usize, usize)>, ls: Seq<Seq<char>>) -> Seq<Seq<Seq<char>>> {
    Seq::new(runs.len(), |k: int| ls.subrange(runs[k].0 as int, runs[k].1 as int))
}

/// Writes lines `from..to` of `lines`, each with a newline.
fn push_lines(out: &mut String, lines: &Vec<Vec<char>>, from: usize, to: usize)
    requires
        from <= to <= lines@.len(),
    ensures
        final(out)@ == old(out)@ + terminated(crate::text::lines_seq(lines@).subrange(from as int, to as int)),
{
    let ghost lv = crate::text::lines_seq(lines@);
    let ghost start = out@;
    for i in from..to
        invariant
            from <= to <= lines@.len(),
            lv == crate::text::lines_seq(lines@),
            out@ == start + terminated(lv.subrange(from as int, i as int)),
    {
        push_chars(out, lines[i].as_slice());
        push_char(out, '\n');
        proof {
            assert(lv.subrange(from as int, i + 1).drop_last() == lv.subrange(from as int, i as int));
            assert(lv.subrange(from as int, i + 1).last() == lines@[i as int]@);
            assert(out@ =~= start + terminated(lv.subrange(from as int, i + 1)));
        }
    }
}

/// Where the header of the section `lines[from..to]` ends, counted from
/// `from`.
fn find_header_end(lines: &Vec<Vec<char>>, from: usize, to: usize) -> (r: usize)
    requires
        from <= to <= lines@.len(),
    ensures
        r == header_end(crate::text::lines_seq(lines@).subrange(from as int, to as int)),
        from + r <= to,
{
    let ghost sv = crate::text::lines_seq(lines@).subrange(from as int, to as int);
    assert(sv.skip(0) == sv);
    proof {
        reveal_strlit("@@");
    }
    for i in from..to
        invariant
            from <= to <= lines@.len(),
            sv == crate::text::lines_seq(lines@).subrange(from as int, to as int),
            header_end(sv) == (i - from) + header_end(sv.skip(i - from)),
    {
        assert(sv.skip(i - from)[0] == lines@[i as int]@);
        assert(sv.skip(i - from).drop_first() == sv.skip(i - from + 1));
        if starts_with_str(lines[i].as_slice(), "@@ ") || is_str(lines[i].as_slice(), "@@") {
            return i - from;
        }
    }
    assert(sv.skip(sv.len() as int).len() == 0);
    to - from
}

/// Once the added files fail, they stay failed.
proof fn lemma_extra_none_stays(fs: Seq<FileDiffV>, k: int, j: int)
    requires
        0 <= k <= j <= fs.len(),
        extra_text(fs.take(k)) is None,
    ensures
        extra_text(fs.take(j)) is None,
    decreases j - k,
{
    if j > k {
        lemma_extra_none_stays(fs, k, j - 1);
        assert(fs.take(j).drop_last() == fs.take(j - 1));
    }
}

/// `expanded` written as unified diff text, keeping `original_text` (which
/// `original` was parsed from) verbatim wherever the diff wasn't changed and
/// each changed file's own header lines. `None` if the text doesn't split
/// into the files `original` has.
pub fn to_text(original_text: &str, original: &UnifiedDiff, expanded: &UnifiedDiff) -> (r: Option<String>)
    requires
        expanded@ == original@ || expanded@.len() >= original@.len(),
    ensures
        opt_string_view(r) == to_text_spec(original_text@, original@, expanded@),
{
    if same_diff(expanded, original) {
        return Some(original_text.to_owned());
    }
    let chars = chars_of(original_text);
    let lines = split_lines(chars.as_slice());
    let ghost ls = lines_of(original_text@);
    let ghost lv = crate::text::lines_seq(lines@);
    assert(lv =~= ls);
    let mut runs: Vec<(usize, usize)> = Vec::new();
    for i in 0..lines.len()
        invariant
            expanded@ != original@,
            ls == lines_of(original_text@),
            lines@.len() == ls.len(),
            lv == crate::text::lines_seq(lines@),
            lv == ls,
            sections_of(ls.take(i as int)) == Some(runs_view(runs@, ls)),
            forall|k: int| 0 <= k < runs@.len() ==> (#[trigger] runs@[k]).0 <= runs@[k].1 <= i,
            runs@.len() > 0 ==> runs@.last().1 == i,
    {
        let ghost before = runs_view(runs@, ls);
        proof {
            assert(ls.take(i + 1).drop_last() == ls.take(i as int));
            assert(ls.take(i + 1).last() == ls[i as int]);
            assert(lines@[i as int]@ == ls[i as int]);
            reveal_strlit("diff --git ");
        }
        if starts_with_str(lines[i].as_slice(), "diff --git ") {
            runs.push((i, i));
            proof {
                assert(ls.subrange(i as int, i as int) =~= Seq::<Seq<char>>::empty());
                assert(runs_view(runs@, ls) =~= before.push(seq![]));
            }
        }
        if runs.len() == 0 {
            proof {
                assert(runs_view(runs@, ls) =~= Seq::<Seq<Seq<char>>>::empty());
                assert(!has_prefix(ls[i as int], "diff --git "@));
                assert(sections_of(ls.take(i + 1)) is None);
                lemma_sections_none_stays(ls, i + 1, ls.len() as int);
                assert(ls.take(ls.len() as int) == ls);
            }
            return None;
        }
        let k = runs.len() - 1;
        let ghost mid = runs_view(runs@, ls);
        let (a, _) = runs[k];
        runs.set(k, (a, i + 1));
        proof {
            assert(ls.subrange(a as int, i + 1) == ls.subrange(a as int, i as int).push(ls[i as int]));
            assert(runs_view(runs@, ls) =~= mid.update(k as int, mid.last().push(ls[i as int])));
        }
    }
    assert(ls.take(ls.len() as int) == ls);
    if runs.len() != original.files.len() {
        assert(runs_view(runs@, ls).len() != original@.len());
        return None;
    }
    let ghost ss = runs_view(runs@, ls);
    let mut out = String::new();
    for i in 0..runs.len()
        invariant
            ss == runs_view(runs@, ls),
            lv == crate::text::lines_seq(lines@),
            lv == ls,
            forall|k: int| 0 <= k < runs@.len() ==> (#[trigger] runs@[k]).0 <= runs@[k].1 <= lines@.len(),
            runs@.len() == original.files@.len(),
            original.files@.len() <= expanded.files@.len(),
            out@ == sections_text(ss, original@, expanded@, i as int),
    {
        let was = &original.files[i];
        let now = &expanded.files[i];
        let (a, b) = runs[i];
        assert(ss[i as int] == ls.subrange(a as int, b as int));
        if same_hunks(&was.hunks, &now.hunks) {
            push_lines(&mut out, &lines, a, b);
        } else {
            let e = find_header_end(&lines, a, b);
            push_lines(&mut out, &lines, a, a + e);
            assert(ls.subrange(a as int, (a + e) as int) == ls.subrange(a as int, b as int).take(e as int));
            hunks_text_into(&now.hunks, &mut out);
        }
        assert(out@ =~= sections_text(ss, original@, expanded@, i + 1));
    }
    let n = original.files.len();
    let ghost extra = expanded@.skip(n as int);
    let ghost body = out@;
    let ghost mut tail: Seq<char> = seq![];
    assert(extra.take(0) == Seq::<FileDiffV>::empty());
    for j in n..expanded.files.len()
        invariant
            n == original@.len(),
            n <= expanded@.len(),
            extra == expanded@.skip(n as int),
            extra_text(extra.take(j - n)) == Some(tail),
            out@ == body + tail,
    {
        let f = &expanded.files[j];
        let ghost prev = out@;
        proof {
            assert(extra.take(j + 1 - n).drop_last() == extra.take(j - n));
            assert(extra.take(j + 1 - n).last() == f@);
        }
        let path = match &f.new_path {
            Some(p) => p,
            None => match &f.old_path {
                Some(p) => p,
                None => {
                    proof {
                        lemma_extra_none_stays(extra, j + 1 - n, extra.len() as int);
                        assert(extra.take(extra.len() as int) == extra);
                    }
                    return None;
                },
            },
        };
        added_file_into(&mut out, path, &f.hunks);
        proof {
            let piece = added_file_text(path@, f@.hunks);
            assert(extra_text(extra.take(j + 1 - n)) == Some(tail + piece));
            tail = tail + piece;
            assert(out@ =~= body + tail);
        }
    }
    assert(extra.take(extra.len() as int) == extra);
    Some(out)
}

/// A copy of a line's characters.
fn slice_chars(l: &[char]) -> (r: Vec<char>)
    ensures
        r@ == l@,
{
    crate::text::slice_of(l, 0, l.len())
}

/// Once the sections fail, they stay failed.
proof fn lemma_sections_none_stays(ls: Seq<Seq<char>>, k: int, j: int)
    requires
        0 <= k <= j <= ls.len(),
        sections_of(ls.take(k)) is None,
    ensures
        sections_of(ls.take(j)) is None,
    decreases j - k,
{
    if j > k {
        lemma_sections_none_stays(ls, k, j - 1);
        assert(ls.take(j).drop_last() == ls.take(j - 1));
    }
}

// ---- context around what threads are about ------------------------------------

/// First line of a hunk on the old side (1-based); for a hunk with no old
/// lines, the line an insertion there sits before.
pub open spec fn old_first(h: HunkV) -> int {
    if h.old_lines == 0 {
        h.old_start + 1
    } else {
        h.old_start as int
    }
}

pub open spec fn new_first(h: HunkV) -> int {
    if h.new_lines == 0 {
        h.new_start + 1
    } else {
        h.new_start as int
    }
}

pub open spec fn old_next(h: HunkV) -> int {
    old_first(h) + h.old_lines
}

pub open spec fn new_next(h: HunkV) -> int {
    new_first(h) + h.new_lines
}

/// A hunk whose line numbers, and the ones right after it, fit in `u32`.
pub open spec fn hunk_fits(h: HunkV) -> bool {
    old_next(h) <= u32::MAX && new_next(h) <= u32::MAX
}

pub open spec fn hunks_fit(hs: Seq<HunkV>) -> bool {
    forall|i: int| 0 <= i < hs.len() ==> hunk_fits(#[trigger] hs[i])
}

impl Hunk {
    pub fn old_first(&self) -> (r: u32)
        requires
            hunk_fits(self@),
        ensures
            r == old_first(self@),
    {
        if self.old_lines == 0 {
            self.old_start + 1
        } else {
            self.old_start
        }
    }

    pub fn new_first(&self) -> (r: u32)
        requires
            hunk_fits(self@),
        ensures
            r == new_first(self@),
    {
        if self.new_lines == 0 {
            self.new_start + 1
        } else {
            self.new_start
        }
    }

    pub fn old_next(&self) -> (r: u32)
        requires
            hunk_fits(self@),
        ensures
            r == old_next(self@),
    {
        self.old_first() + self.old_lines
    }

    pub fn new_next(&self) -> (r: u32)
        requires
            hunk_fits(self@),
        ensures
            r == new_next(self@),
    {
        self.new_first() + self.new_lines
    }
}

/// How many more new lines than old lines the hunks that end at or before
/// new line `new` have.
pub open spec fn shift_new(hs: Seq<HunkV>, new: int) -> int
    decreases hs.len(),
{
    if hs.len() == 0 {
        0
    } else {
        shift_new(hs.drop_last(), new) + if new_next(hs.last()) <= new {
            hs.last().new_lines - hs.last().old_lines
        } else {
            0
        }
    }
}

/// The same for the hunks that end at or before old line `old`.
pub open spec fn shift_old(hs: Seq<HunkV>, old: int) -> int
    decreases hs.len(),
{
    if hs.len() == 0 {
        0
    } else {
        shift_old(hs.drop_last(), old) + if old_next(hs.last()) <= old {
            hs.last().new_lines - hs.last().old_lines
        } else {
            0
        }
    }
}

/// The old line the (unchanged) new line `new` is.
pub open spec fn new_to_old_spec(hs: Seq<HunkV>, new: int) -> u32 {
    (new - shift_new(hs, new)) as u32
}

/// Whether a hunk covers old line `old`.
pub open spec fn covers_old(hs: Seq<HunkV>, old: int) -> bool {
    exists|i: int| 0 <= i < hs.len() && old_first(#[trigger] hs[i]) <= old < old_next(hs[i])
}

/// The new line the (unchanged) old line `old` is, or `None` if a hunk
/// covers it (then it is shown already).
pub open spec fn old_to_new_spec(hs: Seq<HunkV>, old: int) -> Option<u32> {
    if covers_old(hs, old) {
        None
    } else {
        Some((old + shift_old(hs, old)) as u32)
    }
}

proof fn lemma_shift_bounds(hs: Seq<HunkV>, x: int)
    ensures
        -(u32::MAX as int) * hs.len() <= shift_new(hs, x) <= (u32::MAX as int) * hs.len(),
        -(u32::MAX as int) * hs.len() <= shift_old(hs, x) <= (u32::MAX as int) * hs.len(),
    decreases hs.len(),
{
    if hs.len() > 0 {
        lemma_shift_bounds(hs.drop_last(), x);
        assert((u32::MAX as int) * hs.len() == (u32::MAX as int) * (hs.len() - 1) + u32::MAX) by (nonlinear_arith);
    }
}

/// The old line the (unchanged) new line `new` is, given the hunks.
fn new_to_old(hunks: &Vec<Hunk>, new: u32) -> (r: u32)
    requires
        hunks_fit(hunks_view(hunks@)),
    ensures
        r == new_to_old_spec(hunks_view(hunks@), new as int),
{
    let ghost hv = hunks_view(hunks@);
    let mut shift: i128 = 0;
    for i in 0..hunks.len()
        invariant
            hv == hunks_view(hunks@),
            hunks_fit(hv),
            shift == shift_new(hv.take(i as int), new as int),
            hunks@.len() <= usize::MAX,
    {
        proof {
            assert(hv.take(i + 1).drop_last() == hv.take(i as int));
            assert(hv.take(i + 1).last() == hunks@[i as int]@);
            assert(hunk_fits(hv[i as int]));
            lemma_shift_bounds(hv.take(i as int), new as int);
            assert((u32::MAX as int) * i <= (u32::MAX as int) * (usize::MAX as int)) by (nonlinear_arith)
                requires
                    i <= usize::MAX,
            ;
        }
        let h = &hunks[i];
        if h.new_next() <= new {
            shift = shift + (h.new_lines as i128 - h.old_lines as i128);
        }
    }
    assert(hv.take(hv.len() as int) == hv);
    proof {
        lemma_shift_bounds(hv, new as int);
        assert((u32::MAX as int) * hv.len() <= (u32::MAX as int) * (usize::MAX as int)) by (nonlinear_arith)
            requires
                hv.len() <= usize::MAX,
        ;
    }
    (new as i128 - shift) as u32
}

/// The new line the (unchanged) old line `old` is, or `None` if a hunk
/// covers it.
fn old_to_new(hunks: &Vec<Hunk>, old: u32) -> (r: Option<u32>)
    requires
        hunks_fit(hunks_view(hunks@)),
    ensures
        r == old_to_new_spec(hunks_view(hunks@), old as int),
{
    let ghost hv = hunks_view(hunks@);
    for i in 0..hunks.len()
        invariant
            hv == hunks_view(hunks@),
            hunks_fit(hv),
            forall|k: int| 0 <= k < i ==> !(old_first(#[trigger] hv[k]) <= old < old_next(hv[k])),
    {
        assert(hunk_fits(hv[i as int]));
        let h = &hunks[i];
        if old >= h.old_first() && old < h.old_next() {
            return None;
        }
    }
    let mut shift: i128 = 0;
    for i in 0..hunks.len()
        invariant
            hv == hunks_view(hunks@),
            hunks_fit(hv),
            shift == shift_old(hv.take(i as int), old as int),
            hunks@.len() <= usize::MAX,
    {
        proof {
            assert(hv.take(i + 1).drop_last() == hv.take(i as int));
            assert(hv.take(i + 1).last() == hunks@[i as int]@);
            assert(hunk_fits(hv[i as int]));
            lemma_shift_bounds(hv.take(i as int), old as int);
            assert((u32::MAX as int) * i <= (u32::MAX as int) * (usize::MAX as int)) by (nonlinear_arith)
                requires
                    i <= usize::MAX,
            ;
        }
        let h = &hunks[i];
        if h.old_next() <= old {
            shift = shift + (h.new_lines as i128 - h.old_lines as i128);
        }
    }
    assert(hv.take(hv.len() as int) == hv);
    proof {
        lemma_shift_bounds(hv, old as int);
        assert((u32::MAX as int) * hv.len() <= (u32::MAX as int) * (usize::MAX as int)) by (nonlinear_arith)
            requires
                hv.len() <= usize::MAX,
        ;
    }
    Some((old as i128 + shift) as u32)
}

/// Whether a hunk has a row for new line `n`.
pub open spec fn hunk_has(h: HunkV, n: int) -> bool {
    exists|j: int| 0 <= j < h.lines.len() && (#[trigger] h.lines[j]).new_line == Some(n as u32)
}

/// Whether some hunk has a row for new line `n`.
pub open spec fn has_new_row(hs: Seq<HunkV>, n: int) -> bool {
    exists|i: int| 0 <= i < hs.len() && hunk_has(#[trigger] hs[i], n)
}

/// How many lines are not added (are on the old side).
pub open spec fn count_old(ls: Seq<DiffLineV>) -> int
    decreases ls.len(),
{
    if ls.len() == 0 {
        0
    } else {
        count_old(ls.drop_last()) + if ls.last().kind != LineKind::Added {
            1int
        } else {
            0int
        }
    }
}

/// How many lines are not removed (are on the new side).
pub open spec fn count_new(ls: Seq<DiffLineV>) -> int
    decreases ls.len(),
{
    if ls.len() == 0 {
        0
    } else {
        count_new(ls.drop_last()) + if ls.last().kind != LineKind::Removed {
            1int
        } else {
            0int
        }
    }
}

/// A hunk made of `lines`, whose first old/new lines are `old_first` /
/// `new_first`: its counts are its lines', and a side with no lines starts
/// one before the point (git's convention), but not before line 0.
pub open spec fn from_lines_spec(lines: Seq<DiffLineV>, old_first: u32, new_first: u32, heading: Option<Seq<char>>) -> HunkV {
    let ol = count_old(lines) as u32;
    let nl = count_new(lines) as u32;
    HunkV {
        old_start: if ol == 0 {
            if old_first >= 1 {
                (old_first - 1) as u32
            } else {
                0
            }
        } else {
            old_first
        },
        old_lines: ol,
        new_start: if nl == 0 {
            if new_first >= 1 {
                (new_first - 1) as u32
            } else {
                0
            }
        } else {
            new_first
        },
        new_lines: nl,
        section_heading: heading,
        lines,
    }
}

fn from_lines(lines: Vec<DiffLine>, old_first: u32, new_first: u32, heading: Option<String>) -> (r: Hunk)
    ensures
        r@ == from_lines_spec(lines_view(lines@), old_first, new_first, opt_view(heading)),
{
    let ghost lv = lines_view(lines@);
    let mut ol: usize = 0;
    let mut nl: usize = 0;
    for i in 0..lines.len()
        invariant
            lv == lines_view(lines@),
            ol == count_old(lv.take(i as int)),
            nl == count_new(lv.take(i as int)),
            ol <= i,
            nl <= i,
    {
        proof {
            assert(lv.take(i + 1).drop_last() == lv.take(i as int));
            assert(lv.take(i + 1).last() == lines@[i as int]@);
        }
        match lines[i].kind {
            LineKind::Added => {
                nl += 1;
            },
            LineKind::Removed => {
                ol += 1;
            },
            LineKind::Context => {
                ol += 1;
                nl += 1;
            },
        }
    }
    assert(lv.take(lv.len() as int) == lv);
    let o = ol as u32;
    let n = nl as u32;
    Hunk {
        old_start: if o == 0 {
            old_first.saturating_sub(1)
        } else {
            old_first
        },
        old_lines: o,
        new_start: if n == 0 {
            new_first.saturating_sub(1)
        } else {
            new_first
        },
        new_lines: n,
        section_heading: heading,
        lines,
    }
}

fn copy_line(l: &DiffLine) -> (r: DiffLine)
    ensures
        r@ == l@,
{
    DiffLine {
        kind: l.kind,
        content: copy_string(&l.content),
        old_line: l.old_line,
        new_line: l.new_line,
        no_newline_at_eof: l.no_newline_at_eof,
    }
}

fn copy_hunk(h: &Hunk) -> (r: Hunk)
    ensures
        r@ == h@,
{
    let mut lines: Vec<DiffLine> = Vec::new();
    for i in 0..h.lines.len()
        invariant
            lines_view(lines@) == lines_view(h.lines@).take(i as int),
    {
        let l = copy_line(&h.lines[i]);
        proof {
            assert(lines_view(lines@.push(l)) =~= lines_view(lines@).push(l@));
            assert(lines_view(h.lines@).take(i + 1) =~= lines_view(h.lines@).take(i as int).push(h.lines@[i as int]@));
        }
        lines.push(l);
    }
    assert(lines_view(h.lines@).take(h.lines@.len() as int) == lines_view(h.lines@));
    Hunk {
        old_start: h.old_start,
        old_lines: h.old_lines,
        new_start: h.new_start,
        new_lines: h.new_lines,
        section_heading: crate::text::copy_opt(&h.section_heading),
        lines,
    }
}

/// Whether want `w` asks for new line `n`: directly on the new side, or on
/// the old side through an unchanged old line that is new line `n`.
pub open spec fn wanted_by(w: (Side, u32, u32), hs: Seq<HunkV>, n: int) -> bool {
    match w.0 {
        Side::New => w.1 <= n <= w.2,
        Side::Old => exists|o: int| w.1 <= o <= w.2 && #[trigger] old_to_new_spec(hs, o) == Some(n as u32),
    }
}

proof fn lemma_row_from_push(hs: Seq<HunkV>, h: HunkV, n: int)
    requires
        has_new_row(hs, n) || hunk_has(h, n),
    ensures
        has_new_row(hs.push(h), n),
{
    if has_new_row(hs, n) {
        let i = choose|i: int| 0 <= i < hs.len() && hunk_has(#[trigger] hs[i], n);
        assert(hs.push(h)[i] == hs[i]);
    } else {
        assert(hs.push(h)[hs.len() as int] == h);
    }
}

proof fn lemma_row_from_insert(hs: Seq<HunkV>, p: int, h: HunkV, n: int)
    requires
        0 <= p <= hs.len(),
        has_new_row(hs, n) || hunk_has(h, n),
    ensures
        has_new_row(hs.insert(p, h), n),
{
    let t = hs.insert(p, h);
    if has_new_row(hs, n) {
        let i = choose|i: int| 0 <= i < hs.len() && hunk_has(#[trigger] hs[i], n);
        if i < p {
            assert(t[i] == hs[i]);
        } else {
            assert(t[i + 1] == hs[i]);
        }
    } else {
        assert(t[p] == h);
    }
}

/// The hunk's lines followed by another's keep both their rows.
proof fn lemma_row_joined(a: HunkV, b: HunkV, m: HunkV, n: int)
    requires
        m.lines == a.lines + b.lines,
        hunk_has(a, n) || hunk_has(b, n),
    ensures
        hunk_has(m, n),
{
    if hunk_has(a, n) {
        let j = choose|j: int| 0 <= j < a.lines.len() && (#[trigger] a.lines[j]).new_line == Some(n as u32);
        assert(m.lines[j] == a.lines[j]);
    } else {
        let j = choose|j: int| 0 <= j < b.lines.len() && (#[trigger] b.lines[j]).new_line == Some(n as u32);
        assert(m.lines[a.lines.len() + j] == b.lines[j]);
    }
}

/// The context lines for a run of new lines, as one hunk.
fn context_hunk(lines: &Vec<Vec<char>>, hunks: &Vec<Hunk>, run: &Vec<u32>) -> (r: Hunk)
    requires
        run@.len() > 0,
        hunks_fit(hunks_view(hunks@)),
        forall|k: int| 0 <= k < run@.len() ==> 1 <= #[trigger] run@[k] <= lines@.len(),
    ensures
        forall|k: int| 0 <= k < run@.len() ==> hunk_has(r@, #[trigger] run@[k] as int),
{
    let mut body: Vec<DiffLine> = Vec::new();
    for k in 0..run.len()
        invariant
            hunks_fit(hunks_view(hunks@)),
            forall|q: int| 0 <= q < run@.len() ==> 1 <= #[trigger] run@[q] <= lines@.len(),
            body@.len() == k,
            forall|q: int| 0 <= q < k ==> (#[trigger] body@[q]).new_line == Some(run@[q]),
    {
        let n = run[k];
        let l = DiffLine {
            kind: LineKind::Context,
            content: string_of(lines[(n - 1) as usize].as_slice()),
            old_line: Some(new_to_old(hunks, n)),
            new_line: Some(n),
            no_newline_at_eof: false,
        };
        body.push(l);
    }
    let first = run[0];
    let of = new_to_old(hunks, first);
    let ghost bv = body@;
    let h = from_lines(body, of, first, None);
    proof {
        assert forall|k: int| 0 <= k < run@.len() implies hunk_has(h@, #[trigger] run@[k] as int) by {
            assert(h@.lines[k] == bv[k]@);
        }
    }
    h
}

/// How many lines a text has, as a `u32` counts them.
pub open spec fn total_of(text: Seq<char>) -> int {
    (lines_of(text).len() as u32) as int
}

fn copy_hunks(hs: &Vec<Hunk>) -> (r: Vec<Hunk>)
    ensures
        hunks_view(r@) == hunks_view(hs@),
{
    let mut out: Vec<Hunk> = Vec::new();
    for i in 0..hs.len()
        invariant
            hunks_view(out@) == hunks_view(hs@).take(i as int),
    {
        let h = copy_hunk(&hs[i]);
        proof {
            assert(hunks_view(out@.push(h)) =~= hunks_view(out@).push(h@));
            assert(hunks_view(hs@).take(i + 1) =~= hunks_view(hs@).take(i as int).push(hs@[i as int]@));
        }
        out.push(h);
    }
    assert(hunks_view(hs@).take(hs@.len() as int) == hunks_view(hs@));
    out
}

/// Marks the lines within `CONTEXT_RADIUS` of new line `n` (and within the
/// text) as needed; line `m` is at `need[m - 1]`.
fn mark_window(need: &mut Vec<bool>, n: u32, total: u32)
    requires
        1 <= n <= total,
        old(need)@.len() == total,
    ensures
        final(need)@.len() == total,
        final(need)@[n - 1],
        forall|m: int| 0 <= m < total && #[trigger] old(need)@[m] ==> final(need)@[m],
{
    let lo: u64 = if n as u64 > CONTEXT_RADIUS as u64 + 1 {
        n as u64 - CONTEXT_RADIUS as u64
    } else {
        1
    };
    let hi: u64 = if (n as u64) + (CONTEXT_RADIUS as u64) < total as u64 {
        n as u64 + CONTEXT_RADIUS as u64
    } else {
        total as u64
    };
    let mut m = lo;
    while m <= hi
        invariant
            1 <= lo <= n <= hi <= total,
            lo <= m <= hi + 1,
            need@.len() == total,
            forall|q: int| 0 <= q < total && #[trigger] old(need)@[q] ==> need@[q],
            forall|i: int| lo - 1 <= i < m - 1 ==> #[trigger] need@[i],
        decreases hi + 1 - m,
    {
        need.set((m - 1) as usize, true);
        m += 1;
    }
}

/// Where a hunk goes in file order: its first old line, then its first new
/// line.
fn key(h: &Hunk) -> (r: (u64, u64))
    ensures
        r.0 == old_first(h@),
        r.1 == new_first(h@),
{
    let o: u64 = if h.old_lines == 0 {
        h.old_start as u64 + 1
    } else {
        h.old_start as u64
    };
    let n: u64 = if h.new_lines == 0 {
        h.new_start as u64 + 1
    } else {
        h.new_start as u64
    };
    (o, n)
}

/// The hunks of `first` then `second`, sorted (stably) into file order;
/// every row of either is a row of the result.
fn sort_hunks(first: &Vec<Hunk>, second: &Vec<Hunk>) -> (r: Vec<Hunk>)
    ensures
        forall|n: int|
            has_new_row(hunks_view(first@), n) || has_new_row(hunks_view(second@), n) ==> has_new_row(
                hunks_view(r@),
                n,
            ),
{
    let mut out: Vec<Hunk> = Vec::new();
    let ghost fv = hunks_view(first@);
    let ghost sv = hunks_view(second@);
    for i in 0..first.len()
        invariant
            fv == hunks_view(first@),
            forall|n: int|
                (exists|k: int| 0 <= k < i && hunk_has(#[trigger] fv[k], n)) ==> has_new_row(hunks_view(out@), n),
    {
        let h = copy_hunk(&first[i]);
        let ghost hh = h@;
        let ghost before = hunks_view(out@);
        insert_in_order(&mut out, h);
        proof {
            assert forall|n: int| (exists|k: int| 0 <= k < i + 1 && hunk_has(#[trigger] fv[k], n)) implies has_new_row(
                hunks_view(out@),
                n,
            ) by {
                let k = choose|k: int| 0 <= k < i + 1 && hunk_has(#[trigger] fv[k], n);
                if k == i {
                    assert(fv[k] == first@[i as int]@);
                    assert(hunk_has(hh, n));
                } else {
                    assert(has_new_row(before, n));
                }
            }
        }
    }
    for i in 0..second.len()
        invariant
            fv == hunks_view(first@),
            sv == hunks_view(second@),
            forall|n: int| has_new_row(fv, n) ==> has_new_row(hunks_view(out@), n),
            forall|n: int|
                (exists|k: int| 0 <= k < i && hunk_has(#[trigger] sv[k], n)) ==> has_new_row(hunks_view(out@), n),
    {
        let h = copy_hunk(&second[i]);
        let ghost hh = h@;
        let ghost before = hunks_view(out@);
        insert_in_order(&mut out, h);
        proof {
            assert forall|n: int| (exists|k: int| 0 <= k < i + 1 && hunk_has(#[trigger] sv[k], n)) implies has_new_row(
                hunks_view(out@),
                n,
            ) by {
                let k = choose|k: int| 0 <= k < i + 1 && hunk_has(#[trigger] sv[k], n);
                if k == i {
                    assert(sv[k] == second@[i as int]@);
                    assert(hunk_has(hh, n));
                } else {
                    assert(has_new_row(before, n));
                }
            }
            assert forall|n: int| has_new_row(fv, n) implies has_new_row(hunks_view(out@), n) by {
                assert(has_new_row(before, n));
            }
        }
    }
    proof {
        assert forall|n: int| has_new_row(fv, n) || has_new_row(sv, n) implies has_new_row(hunks_view(out@), n) by {
            if has_new_row(sv, n) {
                let k = choose|k: int| 0 <= k < sv.len() && hunk_has(#[trigger] sv[k], n);
            }
        }
    }
    out
}

/// Inserts `h` after every hunk that doesn't come later in file order;
/// every row is kept and `h`'s are added.
fn insert_in_order(out: &mut Vec<Hunk>, h: Hunk)
    ensures
        forall|n: int|
            #![trigger has_new_row(hunks_view(final(out)@), n)]
            has_new_row(hunks_view(old(out)@), n) || hunk_has(h@, n) ==> has_new_row(hunks_view(final(out)@), n),
{
    let (ko, kn) = key(&h);
    let mut p: usize = out.len();
    let mut q: usize = 0;
    while q < out.len()
        invariant
            p <= out@.len(),
            q <= out@.len(),
        decreases out@.len() - q,
    {
        let (o2, n2) = key(&out[q]);
        if o2 > ko || (o2 == ko && n2 > kn) {
            p = q;
            break;
        }
        q += 1;
    }
    let ghost before = hunks_view(out@);
    let ghost hh = h@;
    out.insert(p, h);
    proof {
        assert(hunks_view(out@) =~= before.insert(p as int, hh));
        assert forall|n: int| has_new_row(before, n) || hunk_has(hh, n) implies has_new_row(hunks_view(out@), n) by {
            lemma_row_from_insert(before, p as int, hh, n);
        }
    }
}

fn concat_lines(a: &Vec<DiffLine>, b: &Vec<DiffLine>) -> (r: Vec<DiffLine>)
    ensures
        lines_view(r@) == lines_view(a@) + lines_view(b@),
{
    let mut out: Vec<DiffLine> = Vec::new();
    for i in 0..a.len()
        invariant
            lines_view(out@) == lines_view(a@).take(i as int),
    {
        let l = copy_line(&a[i]);
        proof {
            assert(lines_view(out@.push(l)) =~= lines_view(out@).push(l@));
            assert(lines_view(a@).take(i + 1) =~= lines_view(a@).take(i as int).push(a@[i as int]@));
        }
        out.push(l);
    }
    assert(lines_view(a@).take(a@.len() as int) == lines_view(a@));
    for i in 0..b.len()
        invariant
            lines_view(out@) == lines_view(a@) + lines_view(b@).take(i as int),
    {
        let l = copy_line(&b[i]);
        proof {
            assert(lines_view(out@.push(l)) =~= lines_view(out@).push(l@));
            assert(lines_view(b@).take(i + 1) =~= lines_view(b@).take(i as int).push(b@[i as int]@));
        }
        out.push(l);
    }
    assert(lines_view(b@).take(b@.len() as int) == lines_view(b@));
    out
}

/// The hunks with each one that starts right where the one before it ends
/// (on both sides) joined to it; every row is kept.
fn join_touching(hs: &Vec<Hunk>) -> (r: Vec<Hunk>)
    ensures
        forall|n: int| has_new_row(hunks_view(hs@), n) ==> has_new_row(hunks_view(r@), n),
{
    let ghost hv = hunks_view(hs@);
    let mut out: Vec<Hunk> = Vec::new();
    for i in 0..hs.len()
        invariant
            hv == hunks_view(hs@),
            forall|n: int|
                (exists|k: int| 0 <= k < i && hunk_has(#[trigger] hv[k], n)) ==> has_new_row(hunks_view(out@), n),
    {
        let h = &hs[i];
        let (ho, hn) = key(h);
        let touches = if out.len() > 0 {
            let prev = &out[out.len() - 1];
            let (po, pn) = key(prev);
            po + prev.old_lines as u64 == ho && pn + prev.new_lines as u64 == hn
        } else {
            false
        };
        let ghost before = hunks_view(out@);
        if touches {
            let k = out.len() - 1;
            let prev = &out[k];
            let (po, pn) = key(prev);
            let lines = concat_lines(&prev.lines, &h.lines);
            let heading = match &prev.section_heading {
                Some(x) => Some(copy_string(x)),
                None => crate::text::copy_opt(&h.section_heading),
            };
            let ghost pv = prev@;
            let m = from_lines(lines, po as u32, pn as u32, heading);
            out.set(k, m);
            proof {
                assert(hunks_view(out@) =~= before.update(k as int, m@));
                assert forall|n: int| (exists|q: int| 0 <= q < i + 1 && hunk_has(#[trigger] hv[q], n)) implies has_new_row(
                    hunks_view(out@),
                    n,
                ) by {
                    let q = choose|q: int| 0 <= q < i + 1 && hunk_has(#[trigger] hv[q], n);
                    assert(hunks_view(out@)[k as int] == m@);
                    if q == i {
                        assert(hv[q] == h@);
                        assert(hunk_has(h@, n));
                        lemma_row_joined(pv, h@, m@, n);
                    } else {
                        assert(exists|q2: int| 0 <= q2 < i && hunk_has(#[trigger] hv[q2], n));
                        assert(has_new_row(before, n));
                        let j = choose|j: int| 0 <= j < before.len() && hunk_has(#[trigger] before[j], n);
                        if j == k {
                            assert(before[j] == pv);
                            assert(hunk_has(pv, n));
                            lemma_row_joined(pv, h@, m@, n);
                        } else {
                            assert(hunks_view(out@)[j] == before[j]);
                        }
                    }
                }
            }
        } else {
            let c = copy_hunk(h);
            out.push(c);
            proof {
                assert(hunks_view(out@) =~= before.push(c@));
                assert forall|n: int| (exists|q: int| 0 <= q < i + 1 && hunk_has(#[trigger] hv[q], n)) implies has_new_row(
                    hunks_view(out@),
                    n,
                ) by {
                    let q = choose|q: int| 0 <= q < i + 1 && hunk_has(#[trigger] hv[q], n);
                    if q == i {
                        assert(hv[q] == c@);
                        lemma_row_from_push(before, c@, n);
                    } else {
                        lemma_row_from_push(before, c@, n);
                    }
                }
            }
        }
    }
    proof {
        assert forall|n: int| has_new_row(hv, n) implies has_new_row(hunks_view(out@), n) by {
            let q = choose|q: int| 0 <= q < hv.len() && hunk_has(#[trigger] hv[q], n);
        }
    }
    out
}

/// `file`'s hunks with context added around the wanted new-side lines that
/// the diff doesn't show, read from `text`: runs of such lines become hunks
/// of context, put in file order, and hunks that touch are joined. Every row
/// the hunks had is kept, and every wanted line of the text gets a row.
pub fn expand_file(hunks: &Vec<Hunk>, wanted: &Vec<(Side, u32, u32)>, text: &str) -> (r: Vec<Hunk>)
    requires
        hunks_fit(hunks_view(hunks@)),
    ensures
        forall|n: int| has_new_row(hunks_view(hunks@), n) ==> has_new_row(hunks_view(r@), n),
        forall|k: int, n: int|
            0 <= k < wanted@.len() && 1 <= n <= total_of(text@) && #[trigger] wanted_by(
                wanted@[k],
                hunks_view(hunks@),
                n,
            ) ==> has_new_row(hunks_view(r@), n),
{
    let ghost hv = hunks_view(hunks@);
    let cs = chars_of(text);
    let lines = split_lines(cs.as_slice());
    let total = lines.len() as u32;
    if wanted.len() == 0 || total == 0 {
        return copy_hunks(hunks);
    }
    assert(total <= lines@.len());
    // `shown[n - 1]`: the diff shows new line `n`; `need[n - 1]`: context
    // wants it.
    let mut shown: Vec<bool> = Vec::new();
    let mut need: Vec<bool> = Vec::new();
    for i in 0..total as usize
        invariant
            shown@.len() == i,
            need@.len() == i,
            forall|q: int| 0 <= q < i ==> !shown@[q] && !need@[q],
    {
        shown.push(false);
        need.push(false);
    }
    for i in 0..hunks.len()
        invariant
            hv == hunks_view(hunks@),
            shown@.len() == total,
            forall|i: int| 0 <= i < total && #[trigger] shown@[i] ==> has_new_row(hv, i + 1),
    {
        let h = &hunks[i];
        for j in 0..h.lines.len()
            invariant
                hv == hunks_view(hunks@),
                i < hv.len(),
                h@ == hv[i as int],
                shown@.len() == total,
                forall|i: int| 0 <= i < total && #[trigger] shown@[i] ==> has_new_row(hv, i + 1),
        {
            if let Some(x) = h.lines[j].new_line {
                if x >= 1 && x <= total {
                    proof {
                        assert(hv[i as int].lines[j as int] == h.lines@[j as int]@);
                        assert(hunk_has(hv[i as int], x as int));
                    }
                    shown.set((x - 1) as usize, true);
                }
            }
        }
    }
    for k in 0..wanted.len()
        invariant
            hv == hunks_view(hunks@),
            hunks_fit(hv),
            1 <= total,
            shown@.len() == total,
            need@.len() == total,
            forall|i: int| 0 <= i < total && #[trigger] shown@[i] ==> has_new_row(hv, i + 1),
            forall|k2: int, n: int|
                0 <= k2 < k && 1 <= n <= total && #[trigger] wanted_by(wanted@[k2], hv, n) ==> shown@[n - 1]
                    || need@[n - 1],
    {
        let (side, start, end) = wanted[k];
        let ghost before = need@;
        match side {
            Side::New => {
                let lo: u64 = if start >= 1 {
                    start as u64
                } else {
                    1
                };
                let hi: u64 = if end <= total {
                    end as u64
                } else {
                    total as u64
                };
                let mut n: u64 = lo;
                while n <= hi
                    invariant
                        1 <= lo <= n,
                        hi <= total,
                        n <= hi + 1 || lo > hi,
                        n == lo || n <= hi + 1,
                        shown@.len() == total,
                        need@.len() == total,
                        forall|q: int| 0 <= q < total && #[trigger] before[q] ==> need@[q],
                        forall|i: int| lo - 1 <= i < n - 1 ==> #[trigger] shown@[i] || need@[i],
                    decreases hi + 1 - n,
                {
                    if !shown[(n - 1) as usize] {
                        mark_window(&mut need, n as u32, total);
                    }
                    n += 1;
                }
                proof {
                    assert forall|k2: int, q: int|
                        0 <= k2 < k + 1 && 1 <= q <= total && #[trigger] wanted_by(wanted@[k2], hv, q) implies shown@[q
                            - 1] || need@[q - 1] by {
                        if k2 < k {
                            assert(shown@[q - 1] || before[q - 1]);
                        } else {
                            assert(wanted@[k2] == (side, start, end));
                        }
                    }
                }
            },
            Side::Old => {
                let mut o: u64 = start as u64;
                while o <= end as u64
                    invariant
                        hv == hunks_view(hunks@),
                        hunks_fit(hv),
                        start <= o,
                        o <= end + 1 || start > end,
                        shown@.len() == total,
                        need@.len() == total,
                        forall|q: int| 0 <= q < total && #[trigger] before[q] ==> need@[q],
                        forall|o2: int|
                            start <= o2 < o ==> match #[trigger] old_to_new_spec(hv, o2) {
                                Some(q) => 1 <= q <= total ==> shown@[q - 1] || need@[q - 1],
                                None => true,
                            },
                    decreases end + 1 - o,
                {
                    if let Some(n) = old_to_new(hunks, o as u32) {
                        if n >= 1 && n <= total && !shown[(n - 1) as usize] {
                            mark_window(&mut need, n, total);
                        }
                    }
                    o += 1;
                }
                proof {
                    assert forall|k2: int, q: int|
                        0 <= k2 < k + 1 && 1 <= q <= total && #[trigger] wanted_by(wanted@[k2], hv, q) implies shown@[q
                            - 1] || need@[q - 1] by {
                        if k2 < k {
                            assert(shown@[q - 1] || before[q - 1]);
                        } else {
                            assert(wanted@[k2] == (side, start, end));
                            let o2 = choose|o2: int| start <= o2 <= end && #[trigger] old_to_new_spec(hv, o2) == Some(
                                q as u32,
                            );
                            assert(old_to_new_spec(hv, o2) == Some(q as u32));
                        }
                    }
                }
            },
        }
    }
    // Runs of consecutive needed lines the diff doesn't show become hunks of
    // context.
    let mut added: Vec<Hunk> = Vec::new();
    let mut run: Vec<u32> = Vec::new();
    let mut n: u64 = 1;
    while n <= total as u64
        invariant
            hv == hunks_view(hunks@),
            hunks_fit(hv),
            1 <= n <= total + 1,
            total <= lines@.len(),
            shown@.len() == total,
            need@.len() == total,
            forall|q: int| 0 <= q < run@.len() ==> 1 <= #[trigger] run@[q] < n,
            forall|i: int|
                0 <= i < n - 1 && #[trigger] need@[i] && !shown@[i] ==> has_new_row(hunks_view(added@), i + 1)
                    || run@.contains((i + 1) as u32),
        decreases total + 1 - n,
    {
        let i = (n - 1) as usize;
        if need[i] && !shown[i] {
            if run.len() > 0 && run[run.len() - 1] as u64 + 1 != n {
                let h = context_hunk(&lines, hunks, &run);
                let ghost before = hunks_view(added@);
                proof {
                    assert forall|i: int|
                        0 <= i < n - 1 && #[trigger] need@[i] && !shown@[i] implies has_new_row(before.push(h@), i + 1) by {
                        if run@.contains((i + 1) as u32) {
                            let k = choose|k: int| 0 <= k < run@.len() && run@[k] == (i + 1) as u32;
                            assert(hunk_has(h@, run@[k] as int));
                        }
                        lemma_row_from_push(before, h@, i + 1);
                    }
                }
                added.push(h);
                assert(hunks_view(added@) =~= before.push(h@));
                run = Vec::new();
            }
            let ghost old_run = run@;
            run.push(n as u32);
            proof {
                assert forall|i: int| 0 <= i < n && #[trigger] need@[i] && !shown@[i] implies has_new_row(
                    hunks_view(added@),
                    i + 1,
                ) || run@.contains((i + 1) as u32) by {
                    if i == n - 1 {
                        assert(run@[run@.len() - 1] == n as u32);
                    } else if !has_new_row(hunks_view(added@), i + 1) {
                        let k = choose|k: int| 0 <= k < old_run.len() && old_run[k] == (i + 1) as u32;
                        assert(run@[k] == (i + 1) as u32);
                    }
                }
            }
        }
        n += 1;
    }
    if run.len() > 0 {
        let h = context_hunk(&lines, hunks, &run);
        let ghost before = hunks_view(added@);
        proof {
            assert forall|i: int| 0 <= i < total && #[trigger] need@[i] && !shown@[i] implies has_new_row(
                before.push(h@),
                i + 1,
            ) by {
                if run@.contains((i + 1) as u32) {
                    let k = choose|k: int| 0 <= k < run@.len() && run@[k] == (i + 1) as u32;
                    assert(hunk_has(h@, run@[k] as int));
                }
                lemma_row_from_push(before, h@, i + 1);
            }
        }
        added.push(h);
        assert(hunks_view(added@) =~= before.push(h@));
    }
    let ghost av = hunks_view(added@);
    assert(forall|i: int| 0 <= i < total && #[trigger] need@[i] && !shown@[i] ==> has_new_row(av, i + 1));
    // In file order (stable), with hunks that now touch joined into one.
    let all = copy_hunks(hunks);
    let sorted = sort_hunks(&all, &added);
    let r = join_touching(&sorted);
    proof {
        assert forall|k: int, q: int|
            0 <= k < wanted@.len() && 1 <= q <= total_of(text@) && #[trigger] wanted_by(wanted@[k], hv, q) implies has_new_row(
            hunks_view(r@),
            q,
        ) by {
            if shown@[q - 1] {
                assert(has_new_row(hv, q));
            } else {
                assert(need@[q - 1]);
                assert(has_new_row(av, q));
            }
        }
    }
    r
}


/// A copy of a diff.
pub fn copy_diff(d: &UnifiedDiff) -> (r: UnifiedDiff)
    ensures
        r@ == d@,
{
    let mut files: Vec<FileDiff> = Vec::new();
    for i in 0..d.files.len()
        invariant
            files_view(files@) == files_view(d.files@).take(i as int),
    {
        let ghost before = files@;
        files.push(copy_file(&d.files[i]));
        proof {
            assert(files_view(files@) =~= files_view(before).push(d.files@[i as int]@));
            assert(files_view(d.files@).take(i + 1) =~= files_view(d.files@).take(i as int).push(d.files@[i as int]@));
        }
    }
    proof {
        assert(files_view(d.files@).take(d.files@.len() as int) =~= files_view(d.files@));
    }
    UnifiedDiff { files }
}

fn copy_file(f: &FileDiff) -> (r: FileDiff)
    ensures
        r@ == f@,
{
    FileDiff {
        old_path: crate::text::copy_opt(&f.old_path),
        new_path: crate::text::copy_opt(&f.new_path),
        is_rename: f.is_rename,
        is_binary: f.is_binary,
        hunks: copy_hunks(&f.hunks),
    }
}

/// Whether every hunk fits `u32` line numbers.
fn hunks_fit_exec(hs: &Vec<Hunk>) -> (r: bool)
    ensures
        r == hunks_fit(hunks_view(hs@)),
{
    let ghost hv = hunks_view(hs@);
    for i in 0..hs.len()
        invariant
            hv == hunks_view(hs@),
            forall|k: int| 0 <= k < i ==> hunk_fits(#[trigger] hv[k]),
    {
        let (o, n) = key(&hs[i]);
        if o + hs[i].old_lines as u64 > u32::MAX as u64 || n + hs[i].new_lines as u64 > u32::MAX as u64 {
            assert(!hunk_fits(hv[i as int]));
            return false;
        }
    }
    true
}

/// What a file of the expanded diff keeps of the file it was: its paths and
/// kind, and every row.
pub open spec fn keeps(was: FileDiffV, now: FileDiffV) -> bool {
    &&& now.old_path == was.old_path
    &&& now.new_path == was.new_path
    &&& now.is_rename == was.is_rename
    &&& now.is_binary == was.is_binary
    &&& forall|n: int| has_new_row(was.hunks, n) ==> has_new_row(now.hunks, n)
}

/// Where the first file named `file` (by either path) is in `files`.
fn position_of(files: &Vec<FileDiff>, file: &String) -> (r: Option<usize>)
    ensures
        r matches Some(i) ==> i < files@.len() && diff_names(files@[i as int], file@),
        r matches Some(i) ==> forall|j: int| 0 <= j < i ==> !diff_names(#[trigger] files@[j], file@),
        r is None ==> forall|j: int| 0 <= j < files@.len() ==> !diff_names(#[trigger] files@[j], file@),
{
    for i in 0..files.len()
        invariant
            forall|j: int| 0 <= j < i ==> !diff_names(#[trigger] files@[j], file@),
    {
        let f = &files[i];
        let hit = match &f.new_path {
            Some(p) => same_string(p, file),
            None => false,
        } || match &f.old_path {
            Some(p) => same_string(p, file),
            None => false,
        };
        if hit {
            return Some(i);
        }
    }
    None
}

/// The text of the head version of `path` in the view, where the view
/// knows that version and `blobs` hold it as UTF-8 text.
pub open spec fn head_text_spec(view: ViewVersions, blobs: Blobs, path: Seq<char>) -> Option<Seq<char>> {
    match head_spec(view.files@, view.tree@, path) {
        Some(d) => blobs.text_spec(d),
        None => None,
    }
}

/// The text of the head version of `path` in the view, if held.
fn head_text<'b>(view: &ViewVersions, blobs: &'b Blobs, path: &str) -> (r: Option<&'b str>)
    ensures
        match r {
            Some(t) => head_text_spec(*view, *blobs, path@) == Some(t@),
            None => head_text_spec(*view, *blobs, path@) is None,
        },
{
    match view.head(path) {
        Some(d) => blobs.text(d),
        None => None,
    }
}

/// `diff` with context added around what `wants` ask to see, read from the
/// full texts of the version being viewed. Files the diff doesn't have are
/// appended (in `wants` order) as files of context only; the second value
/// lists them. A want whose text isn't held is left as it was. Every file
/// keeps its paths and its rows.
pub fn expand(diff: &UnifiedDiff, wants: &Vec<Want>, view: &ViewVersions, blobs: &Blobs) -> (r: (UnifiedDiff, Vec<String>))
    ensures
        r.0.files@.len() == diff.files@.len() + r.1@.len(),
        forall|i: int| 0 <= i < diff.files@.len() ==> keeps(diff@[i], #[trigger] r.0@[i]),
        forall|j: int|
            0 <= j < r.1@.len() ==> r.0@[diff.files@.len() + j].old_path == Some((#[trigger] r.1@[j])@)
                && r.0@[diff.files@.len() + j].new_path == Some(r.1@[j]@),
{
    let mut files: Vec<FileDiff> = Vec::new();
    for i in 0..diff.files.len()
        invariant
            files@.len() == i,
            forall|k: int| 0 <= k < i ==> files@[k]@ == diff.files@[k]@,
    {
        files.push(copy_file(&diff.files[i]));
    }
    let mut synthetic: Vec<String> = Vec::new();
    let mut files_wanted: Vec<String> = Vec::new();
    for k in 0..wants.len() {
        let mut seen = false;
        for q in 0..files_wanted.len()
            invariant
                k < wants@.len(),
        {
            if same_string(&files_wanted[q], &wants[k].file) {
                seen = true;
            }
        }
        if !seen {
            files_wanted.push(copy_string(&wants[k].file));
        }
    }
    let n0 = diff.files.len();
    for fi in 0..files_wanted.len()
        invariant
            n0 == diff.files@.len(),
            files@.len() == n0 + synthetic@.len(),
            forall|i: int| 0 <= i < n0 ==> keeps(diff@[i], #[trigger] files@[i]@),
            forall|j: int|
                0 <= j < synthetic@.len() ==> files@[n0 + j]@.old_path == Some((#[trigger] synthetic@[j])@)
                    && files@[n0 + j]@.new_path == Some(synthetic@[j]@),
    {
        let file = &files_wanted[fi];
        let mut wanted: Vec<(Side, u32, u32)> = Vec::new();
        for k in 0..wants.len()
            invariant
                fi < files_wanted@.len(),
        {
            if same_string(&wants[k].file, file) {
                if let Some(l) = wants[k].lines {
                    wanted.push(l);
                }
            }
        }
        match position_of(&files, file) {
            Some(i) => {
                let text = match &files[i].new_path {
                    Some(p) => head_text(view, blobs, p.as_str()),
                    None => None,
                };
                if let Some(t) = text {
                    if i < n0 && hunks_fit_exec(&files[i].hunks) {
                        let hs = expand_file(&files[i].hunks, &wanted, t);
                        let ghost was = files@[i as int]@;
                        let mut f = copy_file(&files[i]);
                        f.hunks = hs;
                        proof {
                            assert(keeps(was, f@));
                            assert(keeps(diff@[i as int], was));
                            assert forall|n: int| has_new_row(diff@[i as int].hunks, n) implies has_new_row(f@.hunks, n) by {
                                assert(has_new_row(was.hunks, n));
                            }
                        }
                        files.set(i, f);
                    }
                }
            },
            None => {
                if let Some(t) = head_text(view, blobs, file.as_str()) {
                    let none: Vec<Hunk> = Vec::new();
                    assert(hunks_view(none@) =~= Seq::<HunkV>::empty());
                    assert(hunks_fit(hunks_view(none@)));
                    let hs = expand_file(&none, &wanted, t);
                    let f = FileDiff {
                        old_path: Some(copy_string(file)),
                        new_path: Some(copy_string(file)),
                        is_rename: false,
                        is_binary: false,
                        hunks: hs,
                    };
                    files.push(f);
                    synthetic.push(copy_string(file));
                }
            },
        }
    }
    (UnifiedDiff { files }, synthetic)
}

} // verus!
