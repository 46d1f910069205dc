//! Following an anchor -- a line range of one immutable file version -- into
//! another version of the file, and deciding where a thread is drawn.
//!
//! Nothing here guesses: where a range went is a matter of the two versions'
//! texts. [`locate`] follows a range through the line diffs between the
//! versions some revision recorded; [`resolve_placement`] uses it to place a
//! thread in a view.

use crate::diff::{FileDiff, UnifiedDiff};
use crate::digest::{precedes_spec, Blobs};
use crate::model::{Anchor, FileDigest, LineRange, Side, TreeFile};
use crate::text::{chars_of, copy_opt, copy_string, lines_of, opt_view, same_string, split_lines, string_of};
use crate::linediff::{
    canonical_of, inclusive_lines, is_canonical, is_small, lemma_totals_nonneg, lemma_totals_prefix, line_diff,
    new_total, old_total, text_myers_of, valid_script, DiffOp, old_len, new_len, old_start, new_start,
};
use vstd::prelude::*;

verus! {

/// Whether the entry is for `file`, by either of its paths.
pub open spec fn names(f: FileDigest, file: Seq<char>) -> bool {
    opt_view(f.new_path) == Some(file) || opt_view(f.old_path) == Some(file)
}

/// The first entry of `files` for `file`.
pub open spec fn entry_index(files: Seq<FileDigest>, file: Seq<char>) -> Option<int>
    decreases files.len(),
{
    if files.len() == 0 {
        None
    } else if names(files[0], file) {
        Some(0)
    } else {
        match entry_index(files.drop_first(), file) {
            Some(i) => Some(i + 1),
            None => None,
        }
    }
}

pub proof fn lemma_entry_index_at(files: Seq<FileDigest>, file: Seq<char>, i: int)
    requires
        0 <= i < files.len(),
        names(files[i], file),
        forall|j: int| 0 <= j < i ==> !names(files[j], file),
    ensures
        entry_index(files, file) == Some(i),
    decreases i,
{
    if i > 0 {
        lemma_entry_index_at(files.drop_first(), file, i - 1);
    }
}

pub proof fn lemma_entry_index_none(files: Seq<FileDigest>, file: Seq<char>)
    requires
        forall|j: int| 0 <= j < files.len() ==> !names(files[j], file),
    ensures
        entry_index(files, file) is None,
    decreases files.len(),
{
    if files.len() > 0 {
        lemma_entry_index_none(files.drop_first(), file);
    }
}

/// Whether an optional string is `s`.
fn opt_is(o: &Option<String>, s: &String) -> (r: bool)
    ensures
        r == (opt_view(*o) == Some(s@)),
{
    match o {
        Some(x) => same_string(x, s),
        None => false,
    }
}

/// Where the first entry of `files` for `file` is.
pub fn find_entry(files: &[FileDigest], file: &str) -> (r: Option<usize>)
    ensures
        match r {
            Some(i) => i < files@.len() && entry_index(files@, file@) == Some(i as int),
            None => entry_index(files@, file@) is None,
        },
{
    let key = file.to_owned();
    for i in 0..files.len()
        invariant
            key@ == file@,
            forall|j: int| 0 <= j < i ==> !names(files@[j], file@),
    {
        if opt_is(&files[i].new_path, &key) || opt_is(&files[i].old_path, &key) {
            proof {
                lemma_entry_index_at(files@, file@, i as int);
            }
            return Some(i);
        }
    }
    proof {
        lemma_entry_index_none(files@, file@);
    }
    None
}

fn opt_str(o: &Option<String>) -> (r: Option<&str>)
    ensures
        match r {
            Some(s) => opt_view(*o) == Some(s@),
            None => o is None,
        },
{
    match o {
        Some(s) => Some(s.as_str()),
        None => None,
    }
}

/// The digest of `file` on `side` in the revision described by `files`, if
/// the file is one that revision's diff touches and has that side.
pub open spec fn digest_for_spec(files: Seq<FileDigest>, file: Seq<char>, side: Side) -> Option<Seq<char>> {
    match entry_index(files, file) {
        Some(i) => match side {
            Side::Old => opt_view(files[i].old),
            Side::New => opt_view(files[i].new),
        },
        None => None,
    }
}

/// The digest of `file` on `side` in the revision described by `files`, if
/// the file is one that revision's diff touches and has that side. `file`
/// may be spelled as either its old or its new path.
pub fn digest_for<'a>(files: &'a [FileDigest], file: &str, side: Side) -> (r: Option<&'a str>)
    ensures
        match r {
            Some(s) => digest_for_spec(files@, file@, side) == Some(s@),
            None => digest_for_spec(files@, file@, side) is None,
        },
{
    match find_entry(files, file) {
        Some(i) => match side {
            Side::Old => opt_str(&files[i].old),
            Side::New => opt_str(&files[i].new),
        },
        None => None,
    }
}

/// Where a range is in another version of its file. `len == 0` is a point.
#[derive(Debug, Clone, Copy, PartialEq, Eq, Structural)]
pub struct Located {
    pub start: u32,
    pub len: u32,
}

/// The file versions a view (a revision's diff) is between: the files its
/// diff touches with both digests, and the head tree the revision recorded
/// for the others.
pub struct ViewVersions<'a> {
    pub files: &'a [FileDigest],
    pub tree: &'a [TreeFile],
}

/// The digest the recorded tree has for `file`.
pub open spec fn recorded_spec(tree: Seq<TreeFile>, file: Seq<char>) -> Option<Seq<char>>
    decreases tree.len(),
{
    if tree.len() == 0 {
        None
    } else if tree[0].path@ == file {
        Some(tree[0].digest@)
    } else {
        recorded_spec(tree.drop_first(), file)
    }
}

/// The digest of `file` at the head of the view.
pub open spec fn head_spec(files: Seq<FileDigest>, tree: Seq<TreeFile>, file: Seq<char>) -> Option<Seq<char>> {
    match entry_index(files, file) {
        Some(i) => opt_view(files[i].new),
        None => recorded_spec(tree, file),
    }
}

/// The digest of `file` at the base of the view.
pub open spec fn base_spec(files: Seq<FileDigest>, tree: Seq<TreeFile>, file: Seq<char>) -> Option<Seq<char>> {
    match entry_index(files, file) {
        Some(i) => opt_view(files[i].old),
        None => recorded_spec(tree, file),
    }
}

impl<'a> ViewVersions<'a> {
    fn recorded(&self, file: &str) -> (r: Option<&'a str>)
        ensures
            match r {
                Some(s) => recorded_spec(self.tree@, file@) == Some(s@),
                None => recorded_spec(self.tree@, file@) is None,
            },
    {
        let key = file.to_owned();
        let tree = self.tree;
        assert(tree@.skip(0) == tree@);
        for i in 0..tree.len()
            invariant
                key@ == file@,
                tree@ == self.tree@,
                recorded_spec(tree@, file@) == recorded_spec(tree@.skip(i as int), file@),
        {
            assert(tree@.skip(i as int)[0] == tree@[i as int]);
            assert(tree@.skip(i as int).drop_first() == tree@.skip(i + 1));
            if same_string(&tree[i].path, &key) {
                return Some(tree[i].digest.as_str());
            }
        }
        assert(tree@.skip(tree@.len() as int).len() == 0);
        None
    }

    /// The digest of `file` at the view's head. A file the diff doesn't touch
    /// is the same on both sides, and is in the revision's recorded tree.
    pub fn head(&self, file: &str) -> (r: Option<&'a str>)
        ensures
            match r {
                Some(s) => head_spec(self.files@, self.tree@, file@) == Some(s@),
                None => head_spec(self.files@, self.tree@, file@) is None,
            },
    {
        let files = self.files;
        match find_entry(files, file) {
            Some(i) => opt_str(&files[i].new),
            None => self.recorded(file),
        }
    }

    /// The digest of `file` at the view's base.
    pub fn base(&self, file: &str) -> (r: Option<&'a str>)
        ensures
            match r {
                Some(s) => base_spec(self.files@, self.tree@, file@) == Some(s@),
                None => base_spec(self.files@, self.tree@, file@) is None,
            },
    {
        let files = self.files;
        match find_entry(files, file) {
            Some(i) => opt_str(&files[i].old),
            None => self.recorded(file),
        }
    }
}

/// Why a view's head has none of the lines a thread is about.
#[derive(Debug, Clone, Copy, PartialEq, Eq, Structural)]
pub enum Absence {
    /// The lines existed in an earlier version and were removed since.
    Deleted,
    /// The lines only appear in a later version: the view is from before them.
    NotYet,
    /// The recorded revisions don't say which came first.
    Unknown,
}

/// Where a thread is drawn in a view.
#[derive(Debug, Clone, PartialEq, Eq)]
pub enum Placement {
    Global,
    File(String),
    /// On lines of the view's diff: on the head side while the anchor's lines
    /// still exist there, else on the base side; `old_range` is the base-side
    /// lines the anchor also covers when `side` is `New`.
    Line { file: String, side: Side, line_start: u32, line_end: u32, old_range: Option<(u32, u32)> },
    /// The view's head has none of the lines the thread is about: the thread
    /// sits at the point before head line `before`, and `was` is what they
    /// say.
    Point { file: String, before: u32, was: Vec<String>, kind: Absence },
    /// The versions needed to place it aren't in the bundle.
    Unplaced { file: String },
}

/// Whether the diff's entry is for `file`, by either of its paths.
pub open spec fn diff_names(f: FileDiff, file: Seq<char>) -> bool {
    opt_view(f.new_path) == Some(file) || opt_view(f.old_path) == Some(file)
}

/// The first file of `files` that is `file`.
pub open spec fn file_index(files: Seq<FileDiff>, file: Seq<char>) -> Option<int>
    decreases files.len(),
{
    if files.len() == 0 {
        None
    } else if diff_names(files[0], file) {
        Some(0)
    } else {
        match file_index(files.drop_first(), file) {
            Some(i) => Some(i + 1),
            None => None,
        }
    }
}

pub proof fn lemma_file_index_at(files: Seq<FileDiff>, file: Seq<char>, i: int)
    requires
        0 <= i < files.len(),
        diff_names(files[i], file),
        forall|j: int| 0 <= j < i ==> !diff_names(files[j], file),
    ensures
        file_index(files, file) == Some(i),
    decreases i,
{
    if i > 0 {
        lemma_file_index_at(files.drop_first(), file, i - 1);
    }
}

pub proof fn lemma_file_index_none(files: Seq<FileDiff>, file: Seq<char>)
    requires
        forall|j: int| 0 <= j < files.len() ==> !diff_names(files[j], file),
    ensures
        file_index(files, file) is None,
    decreases files.len(),
{
    if files.len() > 0 {
        lemma_file_index_none(files.drop_first(), file);
    }
}

/// Where the file `file` is in the diff.
pub fn file_position(diff: &UnifiedDiff, file: &str) -> (r: Option<usize>)
    ensures
        match r {
            Some(i) => i < diff.files@.len() && file_index(diff.files@, file@) == Some(i as int),
            None => file_index(diff.files@, file@) is None,
        },
{
    let key = file.to_owned();
    for i in 0..diff.files.len()
        invariant
            key@ == file@,
            forall|j: int| 0 <= j < i ==> !diff_names(diff.files@[j], file@),
    {
        if opt_is(&diff.files[i].new_path, &key) || opt_is(&diff.files[i].old_path, &key) {
            proof {
                lemma_file_index_at(diff.files@, file@, i as int);
            }
            return Some(i);
        }
    }
    proof {
        lemma_file_index_none(diff.files@, file@);
    }
    None
}

/// The file of the diff that is `file`, by either of its paths.
pub fn find_file<'a>(diff: &'a UnifiedDiff, file: &str) -> (r: Option<&'a FileDiff>)
    ensures
        match r {
            Some(f) => file_index(diff.files@, file@) matches Some(i) && diff.files@[i] == *f,
            None => file_index(diff.files@, file@) is None,
        },
{
    match file_position(diff, file) {
        Some(i) => Some(&diff.files[i]),
        None => None,
    }
}

/// The lines `start ..` (1-based, at most `len` of them) of `text`.
pub open spec fn range_lines(text: Seq<char>, start: u32, len: u32) -> Seq<Seq<char>> {
    let ls = lines_of(text);
    let from = if start - 1 < ls.len() {
        start - 1
    } else {
        ls.len() as int
    };
    let to = if from + len < ls.len() {
        from + len
    } else {
        ls.len() as int
    };
    ls.subrange(from, to)
}

/// The text of a range's lines, from the version it is a range of (none if
/// that version isn't held).
pub open spec fn text_of_spec(range: LineRange, blobs: Blobs) -> Seq<Seq<char>> {
    match blobs.text_spec(range.digest@) {
        Some(t) => range_lines(t, range.start, range.len),
        None => seq![],
    }
}

pub open spec fn strings_view(v: Seq<String>) -> Seq<Seq<char>> {
    v.map_values(|s: String| s@)
}

/// The text of the range's lines, from the version it is a range of. A range
/// of a held version starts at line 1 or later.
pub fn text_of(range: &LineRange, blobs: &Blobs) -> (r: Vec<String>)
    requires
        blobs.text_spec(range.digest@) is Some ==> range.start >= 1,
    ensures
        strings_view(r@) == text_of_spec(*range, *blobs),
{
    let text = match blobs.text(range.digest.as_str()) {
        Some(t) => t,
        None => {
            let v: Vec<String> = Vec::new();
            assert(strings_view(v@) =~= Seq::<Seq<char>>::empty());
            return v;
        },
    };
    let cs = chars_of(text);
    let ls = split_lines(cs.as_slice());
    let ghost all = lines_of(text@);
    let from: usize = if ((range.start - 1) as usize) < ls.len() {
        (range.start - 1) as usize
    } else {
        ls.len()
    };
    let to: usize = if (range.len as usize) < ls.len() - from {
        from + range.len as usize
    } else {
        ls.len()
    };
    let mut out: Vec<String> = Vec::new();
    for i in from..to
        invariant
            from <= to <= ls@.len(),
            ls@.len() == all.len(),
            all == lines_of(text@),
            forall|j: int| 0 <= j < ls@.len() ==> #[trigger] ls@[j]@ == all[j],
            strings_view(out@) == all.subrange(from as int, i as int),
    {
        let s = string_of(ls[i].as_slice());
        proof {
            assert(strings_view(out@.push(s)) =~= strings_view(out@).push(s@));
            assert(all.subrange(from as int, i + 1) =~= all.subrange(from as int, i as int).push(
                all[i as int],
            ));
        }
        out.push(s);
    }
    assert(strings_view(out@) == range_lines(text@, range.start, range.len));
    out
}

/// The first range of the anchor (head side first) that is not empty.
pub open spec fn first_nonempty(anchor: Anchor) -> Option<LineRange> {
    match anchor {
        Anchor::Span { base, head } => match head {
            Some(h) if h.len > 0 => Some(h),
            _ => match base {
                Some(b) if b.len > 0 => Some(b),
                _ => None,
            },
        },
        _ => None,
    }
}

/// The lines a thread was written about, as they were then: the first
/// non-empty range of its anchor (head side first).
pub open spec fn original_text_spec(anchor: Anchor, blobs: Blobs) -> Seq<Seq<char>> {
    match first_nonempty(anchor) {
        Some(r) => text_of_spec(r, blobs),
        None => seq![],
    }
}

/// Whether every range of a held version starts at line 1 or later.
pub open spec fn ranges_start_at_one(anchor: Anchor, blobs: Blobs) -> bool {
    match anchor {
        Anchor::Span { base, head } => {
            &&& (head matches Some(h) ==> (blobs.text_spec(h.digest@) is Some ==> h.start >= 1))
            &&& (base matches Some(b) ==> (blobs.text_spec(b.digest@) is Some ==> b.start >= 1))
        },
        _ => true,
    }
}

pub fn original_text(anchor: &Anchor, blobs: &Blobs) -> (r: Vec<String>)
    requires
        ranges_start_at_one(*anchor, *blobs),
    ensures
        strings_view(r@) == original_text_spec(*anchor, *blobs),
{
    match anchor {
        Anchor::Span { base, head } => {
            if let Some(h) = head {
                if h.len > 0 {
                    return text_of(h, blobs);
                }
            }
            if let Some(b) = base {
                if b.len > 0 {
                    return text_of(b, blobs);
                }
            }
            let v: Vec<String> = Vec::new();
            assert(strings_view(v@) =~= Seq::<Seq<char>>::empty());
            v
        },
        _ => {
            let v: Vec<String> = Vec::new();
            assert(strings_view(v@) =~= Seq::<Seq<char>>::empty());
            v
        },
    }
}

// ---- following a range through one line diff ---------------------------------

/// A script whose positions fit: its old lines end within `usize`, its new
/// lines end before `u32::MAX`, and no replacement is empty on the new side.
pub open spec fn fits(ops: Seq<DiffOp>) -> bool {
    forall|i: int|
        0 <= i < ops.len() ==> old_start(#[trigger] ops[i]) + old_len(ops[i]) <= usize::MAX && new_start(
            ops[i],
        ) + new_len(ops[i]) < u32::MAX && (ops[i] is Replace ==> new_len(ops[i]) > 0)
}

fn script_fits(ops: &Vec<DiffOp>) -> (r: bool)
    ensures
        r == fits(ops@),
{
    for i in 0..ops.len()
        invariant
            forall|k: int|
                0 <= k < i ==> old_start(#[trigger] ops@[k]) + old_len(ops@[k]) <= usize::MAX && new_start(
                    ops@[k],
                ) + new_len(ops@[k]) < u32::MAX && (ops@[k] is Replace ==> new_len(ops@[k]) > 0),
    {
        let op = ops[i];
        if op.old_index() > usize::MAX - op.old_len() {
            return false;
        }
        if op.new_index() >= 4294967295usize || op.new_len() >= 4294967295usize - op.new_index() {
            return false;
        }
        if let DiffOp::Replace { new_len, .. } = op {
            if new_len == 0 {
                return false;
            }
        }
    }
    true
}

/// Where the old lines `first..end` that `op` covers went, as a span of new
/// lines (0-based, both ends included): an unchanged line to its
/// counterpart; an edited one to what replaced it, line for line when the
/// edit kept the number of lines, else the whole replacing block; a removed
/// one nowhere.
pub open spec fn cover(op: DiffOp, first: int, end: int) -> Option<(int, int)> {
    let o = old_start(op);
    let oe = o + old_len(op);
    let a = if o > first { o } else { first };
    let b = if oe < end { oe } else { end };
    let n = new_start(op);
    if a >= b {
        None
    } else {
        match op {
            DiffOp::Equal { .. } => Some((n + (a - o), n + (b - o) - 1)),
            DiffOp::Replace { .. } => if old_len(op) == new_len(op) {
                Some((n + (a - o), n + (b - o) - 1))
            } else {
                Some((n, n + new_len(op) - 1))
            },
            _ => None,
        }
    }
}

/// The span from the first to the last new line any of the old lines
/// `first..end` went to, through the steps of `ops`.
pub open spec fn span(ops: Seq<DiffOp>, first: int, end: int) -> Option<(int, int)>
    decreases ops.len(),
{
    if ops.len() == 0 {
        None
    } else {
        let acc = span(ops.drop_last(), first, end);
        match (acc, cover(ops.last(), first, end)) {
            (None, c) => c,
            (Some(x), None) => Some(x),
            (Some((l, h)), Some((x, y))) => Some((if x < l { x } else { l }, if y > h { y } else { h })),
        }
    }
}

/// The first step whose old lines contain old line `first`.
pub open spec fn first_containing(ops: Seq<DiffOp>, first: int) -> Option<DiffOp>
    decreases ops.len(),
{
    if ops.len() == 0 {
        None
    } else if old_start(ops[0]) <= first < old_start(ops[0]) + old_len(ops[0]) {
        Some(ops[0])
    } else {
        first_containing(ops.drop_first(), first)
    }
}

/// The last step that covers old lines.
pub open spec fn last_with_old(ops: Seq<DiffOp>) -> Option<DiffOp>
    decreases ops.len(),
{
    if ops.len() == 0 {
        None
    } else if old_len(ops.last()) > 0 {
        Some(ops.last())
    } else {
        last_with_old(ops.drop_last())
    }
}

/// The (0-based) new line the point before old line `first` sits before:
/// inside an unchanged run, its counterpart; inside an edited or removed
/// block, where the block is now; past the last old line, right after
/// wherever the last one went.
pub open spec fn point_before_spec(ops: Seq<DiffOp>, first: int) -> int {
    match first_containing(ops, first) {
        Some(op) => match op {
            DiffOp::Equal { .. } => new_start(op) + (first - old_start(op)),
            _ => new_start(op),
        },
        None => match last_with_old(ops) {
            Some(op) => new_start(op) + new_len(op),
            None => 0,
        },
    }
}

/// The old line before which a range of `start` (1-based) begins, 0-based.
pub open spec fn first_of(start: u32) -> int {
    if start >= 1 {
        start - 1
    } else {
        0
    }
}

/// Where the `len` lines starting at `start` (1-based) of the old version
/// are in the new one: the span of what they went to, so lines added inside
/// it are inside it; if none went anywhere, or it was a point already, the
/// point where they were (`len == 0`).
pub open spec fn map_range_spec(ops: Seq<DiffOp>, start: u32, len: u32) -> (u32, u32) {
    let first = first_of(start);
    match span(ops, first, first + len) {
        Some((lo, hi)) if len > 0 => ((lo + 1) as u32, (hi - lo + 1) as u32),
        _ => ((point_before_spec(ops, first) + 1) as u32, 0),
    }
}

proof fn lemma_cover_bounds(op: DiffOp, first: int, end: int)
    requires
        old_start(op) + old_len(op) <= usize::MAX,
        new_start(op) + new_len(op) < u32::MAX,
        op is Replace ==> new_len(op) > 0,
        old_len(op) >= 0,
    ensures
        cover(op, first, end) matches Some((x, y)) ==> 0 <= new_start(op) <= x <= y < new_start(op) + new_len(op),
{
}

proof fn lemma_span_bounds(ops: Seq<DiffOp>, first: int, end: int)
    requires
        fits(ops),
    ensures
        span(ops, first, end) matches Some((l, h)) ==> 0 <= l <= h < u32::MAX - 1,
    decreases ops.len(),
{
    if ops.len() > 0 {
        lemma_span_bounds(ops.drop_last(), first, end);
        assert(fits(ops.drop_last())) by {
            assert forall|i: int| 0 <= i < ops.drop_last().len() implies old_start(#[trigger] ops.drop_last()[i])
                + old_len(ops.drop_last()[i]) <= usize::MAX && new_start(ops.drop_last()[i]) + new_len(
                ops.drop_last()[i],
            ) < u32::MAX && (ops.drop_last()[i] is Replace ==> new_len(ops.drop_last()[i]) > 0) by {
                assert(ops.drop_last()[i] == ops[i]);
            }
        }
        lemma_span_bounds(ops.drop_last(), first, end);
        let k = ops.len() - 1;
        assert(ops.last() == ops[k]);
        lemma_cover_bounds(ops.last(), first, end);
    }
}

proof fn lemma_first_containing(ops: Seq<DiffOp>, first: int)
    ensures
        first_containing(ops, first) matches Some(op) ==> ops.contains(op) && old_start(op) <= first < old_start(op)
            + old_len(op),
    decreases ops.len(),
{
    if ops.len() > 0 {
        lemma_first_containing(ops.drop_first(), first);
        if let Some(op) = first_containing(ops.drop_first(), first) {
            if !(old_start(ops[0]) <= first < old_start(ops[0]) + old_len(ops[0])) {
                let k = choose|k: int| 0 <= k < ops.drop_first().len() && ops.drop_first()[k] == op;
                assert(ops[k + 1] == op);
            }
        }
        assert(ops[0] == ops[0]);
    }
}

proof fn lemma_last_with_old(ops: Seq<DiffOp>)
    ensures
        last_with_old(ops) matches Some(op) ==> ops.contains(op),
    decreases ops.len(),
{
    if ops.len() > 0 {
        lemma_last_with_old(ops.drop_last());
        if let Some(op) = last_with_old(ops.drop_last()) {
            if old_len(ops.last()) <= 0 {
                let k = choose|k: int| 0 <= k < ops.drop_last().len() && ops.drop_last()[k] == op;
                assert(ops[k] == op);
            }
        }
        assert(ops[ops.len() - 1] == ops.last());
    }
}

proof fn lemma_point_bounds(ops: Seq<DiffOp>, first: int)
    requires
        fits(ops),
        0 <= first,
    ensures
        0 <= point_before_spec(ops, first) < u32::MAX,
{
    lemma_first_containing(ops, first);
    lemma_last_with_old(ops);
    if let Some(op) = first_containing(ops, first) {
        let k = choose|k: int| 0 <= k < ops.len() && ops[k] == op;
        assert(fits(ops) ==> new_start(ops[k]) + new_len(ops[k]) < u32::MAX);
        if op is Equal {
            assert(old_len(op) == new_len(op));
        }
    } else if let Some(op) = last_with_old(ops) {
        let k = choose|k: int| 0 <= k < ops.len() && ops[k] == op;
        assert(new_start(ops[k]) + new_len(ops[k]) < u32::MAX);
    }
}

/// The (0-based) new line the point before old line `first` sits before.
fn point_before(ops: &Vec<DiffOp>, first: u64) -> (r: u64)
    requires
        fits(ops@),
    ensures
        r == point_before_spec(ops@, first as int),
{
    let ghost s = ops@;
    let mut i: usize = 0;
    assert(s.skip(0) == s);
    while i < ops.len()
        invariant
            s == ops@,
            fits(s),
            i <= s.len(),
            first_containing(s, first as int) == first_containing(s.skip(i as int), first as int),
        decreases ops.len() - i,
    {
        let op = ops[i];
        assert(s.skip(i as int)[0] == op);
        assert(s.skip(i as int).drop_first() == s.skip(i + 1));
        assert(old_start(s[i as int]) + old_len(s[i as int]) <= usize::MAX);
        let o = op.old_index() as u64;
        let oe = (op.old_index() + op.old_len()) as u64;
        if o <= first && first < oe {
            assert(new_start(s[i as int]) + new_len(s[i as int]) < u32::MAX);
            return match op {
                DiffOp::Equal { old_index, new_index, .. } => new_index as u64 + (first - old_index as u64),
                _ => op.new_index() as u64,
            };
        }
        i += 1;
    }
    assert(s.skip(i as int).len() == 0);
    // Past the last old line: right after wherever the last one went.
    let mut j = ops.len();
    assert(s.take(j as int) == s);
    while j > 0
        invariant
            s == ops@,
            fits(s),
            j <= s.len(),
            first_containing(s, first as int) is None,
            last_with_old(s) == last_with_old(s.take(j as int)),
        decreases j,
    {
        let op = ops[j - 1];
        assert(s.take(j as int).last() == op);
        assert(s.take(j as int).drop_last() == s.take(j - 1));
        assert(new_start(s[j - 1]) + new_len(s[j - 1]) < u32::MAX);
        if op.old_len() > 0 {
            return op.new_index() as u64 + op.new_len() as u64;
        }
        j -= 1;
    }
    0
}

/// Where the `len` lines starting at `start` (1-based) of the old version
/// are in the new one, by the line diff `ops` between them.
pub fn map_range(ops: &Vec<DiffOp>, start: u32, len: u32) -> (r: (u32, u32))
    requires
        fits(ops@),
    ensures
        r == map_range_spec(ops@, start, len),
{
    let ghost s = ops@;
    let first: u64 = if start >= 1 {
        (start - 1) as u64
    } else {
        0
    };
    let end: u64 = first + len as u64;
    if len > 0 {
        let mut lo: u64 = 0;
        let mut hi: u64 = 0;
        let mut any = false;
        for i in 0..ops.len()
            invariant
                s == ops@,
                fits(s),
                first == first_of(start),
                end == first + len,
                any ==> span(s.take(i as int), first as int, end as int) == Some((lo as int, hi as int)),
                !any ==> span(s.take(i as int), first as int, end as int) is None,
        {
            let op = ops[i];
            proof {
                assert(s.take(i + 1).drop_last() == s.take(i as int));
                assert(s.take(i + 1).last() == op);
                assert(old_start(s[i as int]) + old_len(s[i as int]) <= usize::MAX);
                assert(new_start(s[i as int]) + new_len(s[i as int]) < u32::MAX);
                lemma_cover_bounds(op, first as int, end as int);
            }
            let o = op.old_index() as u64;
            let oe = (op.old_index() + op.old_len()) as u64;
            let a = if o > first {
                o
            } else {
                first
            };
            let b = if oe < end {
                oe
            } else {
                end
            };
            if a < b {
                let n = op.new_index() as u64;
                let c: Option<(u64, u64)> = match op {
                    DiffOp::Equal { .. } => Some((n + (a - o), n + (b - o) - 1)),
                    DiffOp::Replace { old_len, new_len, .. } => if old_len == new_len {
                        Some((n + (a - o), n + (b - o) - 1))
                    } else {
                        Some((n, n + new_len as u64 - 1))
                    },
                    _ => None,
                };
                if let Some((x, y)) = c {
                    if !any {
                        lo = x;
                        hi = y;
                        any = true;
                    } else {
                        if x < lo {
                            lo = x;
                        }
                        if y > hi {
                            hi = y;
                        }
                    }
                }
            }
        }
        proof {
            assert(s.take(s.len() as int) == s);
            lemma_span_bounds(s, first as int, end as int);
        }
        if any {
            return ((lo + 1) as u32, (hi - lo + 1) as u32);
        }
    }
    proof {
        lemma_point_bounds(s, first as int);
    }
    let p = point_before(ops, first);
    ((p + 1) as u32, 0)
}

// ---- following a range into another version ----------------------------------

proof fn lemma_map_range_bound(ops: Seq<DiffOp>, start: u32, len: u32)
    requires
        fits(ops),
    ensures
        map_range_spec(ops, start, len).0 + map_range_spec(ops, start, len).1 <= u32::MAX,
{
    let first = first_of(start);
    lemma_span_bounds(ops, first, first + len);
    lemma_point_bounds(ops, first);
}

/// A script the line diff gives from `old` to `new`: Myers' script of
/// the two texts (placed) for small inputs, a valid script for big ones,
/// and either way every step starts where the ones before it end.
pub open spec fn diff_script(ops: Seq<DiffOp>, old: Seq<char>, new: Seq<char>) -> bool {
    &&& is_small(inclusive_lines(old), inclusive_lines(new)) ==> ops == canonical_of(text_myers_of(old, new))
    &&& !is_small(inclusive_lines(old), inclusive_lines(new)) ==> valid_script(
        ops,
        inclusive_lines(old),
        inclusive_lines(new),
    )
    &&& is_canonical(ops)
}

/// Where lines `start..start + len` (1-based) are after each of `scripts`
/// in turn.
pub open spec fn follow(scripts: Seq<Seq<DiffOp>>, start: u32, len: u32) -> (u32, u32)
    decreases scripts.len(),
{
    if scripts.len() == 0 {
        (start, len)
    } else {
        let (s, l) = follow(scripts.drop_last(), start, len);
        map_range_spec(scripts.last(), s, l)
    }
}

/// Whether `scripts` are the line diffs from each of `texts` to the next.
pub open spec fn diffs_along(texts: Seq<Seq<char>>, scripts: Seq<Seq<DiffOp>>) -> bool {
    &&& scripts.len() + 1 == texts.len()
    &&& forall|k: int| 0 <= k < scripts.len() ==> diff_script(#[trigger] scripts[k], texts[k], texts[k + 1])
}

proof fn lemma_prefix_mono(ops: Seq<DiffOp>, j: int, m: int)
    requires
        0 <= j <= m <= ops.len(),
    ensures
        old_total(ops.take(j)) <= old_total(ops.take(m)),
        new_total(ops.take(j)) <= new_total(ops.take(m)),
{
    lemma_totals_prefix(ops.take(m), j);
    assert(ops.take(m).take(j) == ops.take(j));
}

proof fn lemma_span_one(ops: Seq<DiffOp>, i: int, first: int, end: int, m: int)
    requires
        is_canonical(ops),
        0 <= i < ops.len(),
        0 <= m <= ops.len(),
        old_start(ops[i]) <= first < end <= old_start(ops[i]) + old_len(ops[i]),
    ensures
        span(ops.take(m), first, end) == if m <= i {
            None
        } else {
            cover(ops[i], first, end)
        },
    decreases m,
{
    if m > 0 {
        lemma_span_one(ops, i, first, end, m - 1);
        let j = m - 1;
        assert(ops.take(m).drop_last() == ops.take(j));
        assert(ops.take(m).last() == ops[j]);
        assert(ops.take(j + 1).drop_last() == ops.take(j));
        assert(old_total(ops.take(j + 1)) == old_total(ops.take(j)) + old_len(ops[j]));
        lemma_totals_nonneg(ops.take(j));
        if j < i {
            lemma_prefix_mono(ops, j + 1, i);
            assert(cover(ops[j], first, end) is None);
        } else if j > i {
            assert(ops.take(i + 1).drop_last() == ops.take(i));
            assert(old_total(ops.take(i + 1)) == old_total(ops.take(i)) + old_len(ops[i]));
            lemma_prefix_mono(ops, i + 1, j);
            assert(cover(ops[j], first, end) is None);
        }
    }
}

/// Lines that stay the same go to the same text: when a valid line diff
/// from `a` to `b` keeps every line of a range (`len > 0` of them, from
/// `start`, 1-based) within one equal run, the range is followed to the
/// place that run has in `b`, as long as it was, and the lines there are the
/// range's lines.
#[verifier::rlimit(50)]
pub proof fn lemma_kept_lines_follow(ops: Seq<DiffOp>, a: Seq<Seq<char>>, b: Seq<Seq<char>>, start: u32, len: u32, i: int)
    requires
        valid_script(ops, a, b),
        is_canonical(ops),
        fits(ops),
        len > 0,
        0 <= i < ops.len(),
        ops[i] is Equal,
        old_start(ops[i]) <= first_of(start),
        first_of(start) + len <= old_start(ops[i]) + old_len(ops[i]),
    ensures
        map_range_spec(ops, start, len) == ((new_start(ops[i]) + (first_of(start) - old_start(ops[i])) + 1) as u32, len),
        ({
            let at = map_range_spec(ops, start, len).0 - 1;
            b.subrange(at, at + len) == a.subrange(first_of(start), first_of(start) + len)
        }),
{
    let first = first_of(start);
    let end = first + len;
    assert(span(ops, first, end) == cover(ops[i], first, end)) by {
        lemma_span_one(ops, i, first, end, ops.len() as int);
        assert(ops.take(ops.len() as int) == ops);
    }
    let o = old_start(ops[i]);
    let n = new_start(ops[i]);
    let l = old_len(ops[i]);
    assert(a.subrange(o, o + l) == b.subrange(n, n + l)) by {
        assert(ops[i] matches DiffOp::Equal { len: q, .. } && crate::linediff::same_run(
            a,
            b,
            old_total(ops.take(i)),
            new_total(ops.take(i)),
            q as int,
        ));
    }
    assert(a.subrange(first, end) =~= a.subrange(o, o + l).subrange(first - o, end - o));
    assert(b.subrange(n + (first - o), n + (end - o)) =~= b.subrange(n, n + l).subrange(first - o, end - o));
}

/// Follows `range` to the version of its file with digest `target`, through
/// the line diffs between the versions along the shortest chain of recorded
/// steps between them (or directly, when there is none). `None` when a
/// needed version isn't held (a damaged bundle), or a version is too long
/// for its line numbers to fit.
pub fn locate(range: &LineRange, target: &str, blobs: &Blobs) -> (r: Option<Located>)
    ensures
        range.digest@ == target@ ==> r == Some(Located { start: range.start, len: range.len }),
        range.digest@ != target@ && (!blobs.held(range.digest@) || !blobs.held(target@)) ==> r is None,
        range.digest@ != target@ ==> (r matches Some(l) ==> l.start + l.len <= u32::MAX),
        range.digest@ != target@ ==> (r matches Some(l) ==> exists|texts: Seq<Seq<char>>, scripts: Seq<Seq<DiffOp>>|
            {
                &&& #[trigger] diffs_along(texts, scripts)
                &&& ((exists|w: Seq<Seq<char>>|
                    blobs.is_held_walk(w) && #[trigger] w[0] == range.digest@ && w.last() == target@
                        && blobs.texts_of(w) == texts) || (!blobs.connected(range.digest@, target@) && texts == seq![
                    blobs.text_spec(range.digest@).unwrap(),
                    blobs.text_spec(target@).unwrap(),
                ]))
                &&& follow(scripts, range.start, range.len) == (l.start, l.len)
            }),
{
    let key = target.to_owned();
    if same_string(&range.digest, &key) {
        return Some(Located { start: range.start, len: range.len });
    }
    let texts = match blobs.chain(range.digest.as_str(), target) {
        None => {
            return None;
        },
        Some(t) => t,
    };
    proof {
        if exists|w: Seq<Seq<char>>|
            blobs.is_held_walk(w) && #[trigger] w[0] == range.digest@ && w.last() == target@ && blobs.texts_of(w)
                == crate::digest::strs_view(texts@) {
            let w = choose|w: Seq<Seq<char>>|
                blobs.is_held_walk(w) && #[trigger] w[0] == range.digest@ && w.last() == target@ && blobs.texts_of(w)
                    == crate::digest::strs_view(texts@);
            assert(w.len() >= 2);
            assert(blobs.texts_of(w).len() == w.len());
        }
        assert(texts@.len() == crate::digest::strs_view(texts@).len());
    }
    let ghost tv = crate::digest::strs_view(texts@);
    let mut at = range.start;
    let mut len = range.len;
    let mut k: usize = 0;
    let ghost mut scripts: Seq<Seq<DiffOp>> = Seq::empty();
    while k < texts.len() - 1
        invariant
            range.digest@ != target@,
            texts@.len() >= 2,
            k + 1 <= texts@.len(),
            k > 0 ==> at + len <= u32::MAX,
            tv == crate::digest::strs_view(texts@),
            diffs_along(tv.take(k + 1), scripts),
            follow(scripts, range.start, range.len) == (at, len),
        decreases texts.len() - k,
    {
        let ops = line_diff(texts[k], texts[k + 1]);
        if !script_fits(&ops) {
            return None;
        }
        proof {
            lemma_map_range_bound(ops@, at, len);
        }
        let (a, l) = map_range(&ops, at, len);
        proof {
            let old_scripts = scripts;
            scripts = scripts.push(ops@);
            assert(scripts.drop_last() == old_scripts);
            assert(tv[k as int] == texts@[k as int]@ && tv[k + 1] == texts@[k + 1]@);
            let t2 = tv.take(k + 2);
            assert forall|q: int| 0 <= q < scripts.len() implies diff_script(#[trigger] scripts[q], t2[q], t2[q + 1]) by {
                if q < k {
                    assert(scripts[q] == old_scripts[q]);
                    assert(tv.take(k + 1)[q] == t2[q] && tv.take(k + 1)[q + 1] == t2[q + 1]);
                }
            }
        }
        at = a;
        len = l;
        k += 1;
    }
    proof {
        assert(tv.take(k + 1) == tv);
    }
    Some(Located { start: at, len })
}

// ---- where a thread is drawn in a view ----------------------------------------------

/// What a placement says, with its texts as character sequences.
pub enum PlacementV {
    Global,
    File(Seq<char>),
    Line { file: Seq<char>, side: Side, line_start: u32, line_end: u32, old_range: Option<(u32, u32)> },
    Point { file: Seq<char>, before: u32, was: Seq<Seq<char>>, kind: Absence },
    Unplaced { file: Seq<char> },
}

impl View for Placement {
    type V = PlacementV;

    open spec fn view(&self) -> PlacementV {
        match self {
            Placement::Global => PlacementV::Global,
            Placement::File(f) => PlacementV::File(f@),
            Placement::Line { file, side, line_start, line_end, old_range } => PlacementV::Line {
                file: file@,
                side: *side,
                line_start: *line_start,
                line_end: *line_end,
                old_range: *old_range,
            },
            Placement::Point { file, before, was, kind } => PlacementV::Point {
                file: file@,
                before: *before,
                was: strings_view(was@),
                kind: *kind,
            },
            Placement::Unplaced { file } => PlacementV::Unplaced { file: file@ },
        }
    }
}

/// The first result that has lines.
pub open spec fn first_lines(ls: Seq<Option<Located>>) -> Option<Located>
    decreases ls.len(),
{
    if ls.len() == 0 {
        None
    } else {
        match ls[0] {
            Some(l) if l.len > 0 => Some(l),
            _ => first_lines(ls.drop_first()),
        }
    }
}

/// The first result that is a point.
pub open spec fn first_point(ls: Seq<Option<Located>>) -> Option<Located>
    decreases ls.len(),
{
    if ls.len() == 0 {
        None
    } else {
        match ls[0] {
            Some(l) if l.len == 0 => Some(l),
            _ => first_point(ls.drop_first()),
        }
    }
}

/// Every result ends where a `u32` line number can say.
pub open spec fn results_fit(ls: Seq<Option<Located>>) -> bool {
    forall|k: int| 0 <= k < ls.len() ==> (#[trigger] ls[k] matches Some(l) ==> l.start + l.len <= u32::MAX)
}

pub open spec fn or_label(f: Option<Seq<char>>, label: Seq<char>) -> Seq<char> {
    match f {
        Some(x) => x,
        None => label,
    }
}

/// Where a thread on lines is drawn, from where its ranges were found in
/// the view's two versions (head side first): on the head side while its
/// lines still exist there, else on the base side (the diff removed them),
/// else as a point where they are or were, else unplaced.
pub open spec fn placement_of(
    label: Seq<char>,
    head_file: Option<Seq<char>>,
    base_file: Option<Seq<char>>,
    new_locs: Seq<Option<Located>>,
    old_locs: Seq<Option<Located>>,
    kind: Absence,
    was: Seq<Seq<char>>,
) -> PlacementV {
    let old_range = match first_lines(old_locs) {
        Some(l) => Some((l.start, (l.start + l.len - 1) as u32)),
        None => None,
    };
    match first_lines(new_locs) {
        Some(l) => PlacementV::Line {
            file: or_label(head_file, label),
            side: Side::New,
            line_start: l.start,
            line_end: (l.start + l.len - 1) as u32,
            old_range,
        },
        None => match old_range {
            Some((a, b)) => PlacementV::Line {
                file: or_label(base_file, label),
                side: Side::Old,
                line_start: a,
                line_end: b,
                old_range: None,
            },
            None => match first_point(new_locs) {
                Some(p) => PlacementV::Point { file: or_label(head_file, label), before: p.start, was, kind },
                None => PlacementV::Unplaced { file: label },
            },
        },
    }
}

fn find_lines(ls: &Vec<Option<Located>>) -> (r: Option<Located>)
    ensures
        r == first_lines(ls@),
{
    let ghost s = ls@;
    assert(s.skip(0) == s);
    for k in 0..ls.len()
        invariant
            s == ls@,
            first_lines(s) == first_lines(s.skip(k as int)),
    {
        assert(s.skip(k as int)[0] == s[k as int]);
        assert(s.skip(k as int).drop_first() == s.skip(k + 1));
        if let Some(l) = ls[k] {
            if l.len > 0 {
                return Some(l);
            }
        }
    }
    assert(s.skip(s.len() as int).len() == 0);
    None
}

fn find_point(ls: &Vec<Option<Located>>) -> (r: Option<Located>)
    ensures
        r == first_point(ls@),
{
    let ghost s = ls@;
    assert(s.skip(0) == s);
    for k in 0..ls.len()
        invariant
            s == ls@,
            first_point(s) == first_point(s.skip(k as int)),
    {
        assert(s.skip(k as int)[0] == s[k as int]);
        assert(s.skip(k as int).drop_first() == s.skip(k + 1));
        if let Some(l) = ls[k] {
            if l.len == 0 {
                return Some(l);
            }
        }
    }
    assert(s.skip(s.len() as int).len() == 0);
    None
}

proof fn lemma_first_lines_in(ls: Seq<Option<Located>>)
    ensures
        first_lines(ls) matches Some(l) ==> l.len > 0 && ls.contains(Some(l)),
    decreases ls.len(),
{
    if ls.len() > 0 {
        lemma_first_lines_in(ls.drop_first());
        if let Some(l) = first_lines(ls) {
            if ls[0] != Some(l) {
                let k = choose|k: int| 0 <= k < ls.drop_first().len() && ls.drop_first()[k] == Some(l);
                assert(ls[k + 1] == Some(l));
            }
        }
    }
}

/// Places a thread on lines, from where its ranges were found in the
/// view's head version (`new_locs`) and base version (`old_locs`).
pub fn place_span(
    label: String,
    head_file: Option<String>,
    base_file: Option<String>,
    new_locs: &Vec<Option<Located>>,
    old_locs: &Vec<Option<Located>>,
    kind: Absence,
    was: Vec<String>,
) -> (r: Placement)
    requires
        results_fit(new_locs@),
        results_fit(old_locs@),
    ensures
        r@ == placement_of(label@, opt_view(head_file), opt_view(base_file), new_locs@, old_locs@, kind, strings_view(was@)),
{
    proof {
        lemma_first_lines_in(new_locs@);
        lemma_first_lines_in(old_locs@);
    }
    let old_lines = find_lines(old_locs);
    let old_range = match old_lines {
        Some(l) => {
            proof {
                let k = choose|k: int| 0 <= k < old_locs@.len() && old_locs@[k] == Some(l);
                assert(old_locs@[k] == Some(l));
                assert(l.start + l.len <= u32::MAX);
            }
            Some((l.start, l.start + l.len - 1))
        },
        None => None,
    };
    if let Some(l) = find_lines(new_locs) {
        proof {
            let k = choose|k: int| 0 <= k < new_locs@.len() && new_locs@[k] == Some(l);
            assert(new_locs@[k] == Some(l));
            assert(l.start + l.len <= u32::MAX);
        }
        let file = match head_file {
            Some(f) => f,
            None => label,
        };
        return Placement::Line { file, side: Side::New, line_start: l.start, line_end: l.start + l.len - 1, old_range };
    }
    if let Some((a, b)) = old_range {
        let file = match base_file {
            Some(f) => f,
            None => label,
        };
        return Placement::Line { file, side: Side::Old, line_start: a, line_end: b, old_range: None };
    }
    match find_point(new_locs) {
        Some(p) => {
            let file = match head_file {
                Some(f) => f,
                None => label,
            };
            Placement::Point { file, before: p.start, was, kind }
        },
        None => Placement::Unplaced { file: label },
    }
}

/// The ranges of a span anchor that are present, the first one first.
pub open spec fn present(first: Option<LineRange>, second: Option<LineRange>) -> Seq<LineRange> {
    (match first {
        Some(r) => seq![r],
        None => seq![],
    }) + (match second {
        Some(r) => seq![r],
        None => seq![],
    })
}

/// The ranges of a span anchor that have lines, the first one first.
pub open spec fn with_lines(first: Option<LineRange>, second: Option<LineRange>) -> Seq<LineRange> {
    (match first {
        Some(r) if r.len > 0 => seq![r],
        _ => seq![],
    }) + (match second {
        Some(r) if r.len > 0 => seq![r],
        _ => seq![],
    })
}

/// What a span anchor is called: the file of its first present range.
pub open spec fn label_of(head: Option<LineRange>, base: Option<LineRange>) -> Seq<char> {
    match head {
        Some(h) => h.file@,
        None => match base {
            Some(b) => b.file@,
            None => seq![],
        },
    }
}

/// The file of the diff that the first of the anchor's ranges names.
pub open spec fn file_diff_of(files: Seq<FileDiff>, head: Option<LineRange>, base: Option<LineRange>) -> Option<FileDiff> {
    let from_head = match head {
        Some(h) => match file_index(files, h.file@) {
            Some(i) => Some(files[i]),
            None => None,
        },
        None => None,
    };
    match from_head {
        Some(f) => Some(f),
        None => match base {
            Some(b) => match file_index(files, b.file@) {
                Some(i) => Some(files[i]),
                None => None,
            },
            None => None,
        },
    }
}

/// Why a view's head lacks the lines: the anchor's version came before the
/// head's (removed since), after it (not there yet), or neither is known.
pub open spec fn absence_of(steps: Seq<(Seq<char>, Seq<char>)>, origin: Option<Seq<char>>, head: Option<Seq<char>>) -> Absence {
    match (origin, head) {
        (Some(o), Some(h)) => if precedes_spec(steps, o, h) {
            Absence::Deleted
        } else if precedes_spec(steps, h, o) {
            Absence::NotYet
        } else {
            Absence::Unknown
        },
        _ => Absence::Unknown,
    }
}

/// What is known of where each range was found in the version `digest`:
/// nowhere without a version; itself in its own version; nowhere when one
/// of the two versions isn't held.
pub open spec fn found_as(locs: Seq<Option<Located>>, ranges: Seq<LineRange>, digest: Option<Seq<char>>, blobs: Blobs) -> bool {
    &&& locs.len() == ranges.len()
    &&& forall|k: int|
        0 <= k < ranges.len() ==> match digest {
            None => #[trigger] locs[k] is None,
            Some(d) => {
                &&& ranges[k].digest@ == d ==> locs[k] == Some(Located { start: ranges[k].start, len: ranges[k].len })
                &&& ranges[k].digest@ != d && (!blobs.held(ranges[k].digest@) || !blobs.held(d)) ==> locs[k] is None
            },
        }
}

/// Every range ends where a `u32` line number can say.
pub open spec fn ranges_fit(ranges: Seq<LineRange>) -> bool {
    forall|k: int| 0 <= k < ranges.len() ==> (#[trigger] ranges[k]).start + ranges[k].len <= u32::MAX
}

/// Follows each range to the version `digest`.
fn locate_each(ranges: &Vec<LineRange>, digest: Option<&str>, blobs: &Blobs) -> (r: Vec<Option<Located>>)
    requires
        ranges_fit(ranges@),
    ensures
        found_as(r@, ranges@, match digest {
            Some(d) => Some(d@),
            None => None,
        }, *blobs),
        results_fit(r@),
{
    let ghost dv = match digest {
        Some(d) => Some(d@),
        None => None::<Seq<char>>,
    };
    let mut out: Vec<Option<Located>> = Vec::new();
    for k in 0..ranges.len()
        invariant
            ranges_fit(ranges@),
            dv == match digest {
                Some(d) => Some(d@),
                None => None::<Seq<char>>,
            },
            out@.len() == k,
            forall|j: int|
                0 <= j < k ==> match dv {
                    None => #[trigger] out@[j] is None,
                    Some(d) => {
                        &&& ranges@[j].digest@ == d ==> out@[j] == Some(
                            Located { start: ranges@[j].start, len: ranges@[j].len },
                        )
                        &&& ranges@[j].digest@ != d && (!blobs.held(ranges@[j].digest@) || !blobs.held(d))
                            ==> out@[j] is None
                    },
                },
            results_fit(out@),
    {
        let l = match digest {
            Some(d) => locate(&ranges[k], d, blobs),
            None => None,
        };
        proof {
            assert(ranges@[k as int].start + ranges@[k as int].len <= u32::MAX);
        }
        out.push(l);
    }
    out
}

/// Copies of the ranges of a span anchor that have lines, the first one
/// first.
fn ranges_with_lines(first: &Option<LineRange>, second: &Option<LineRange>) -> (r: Vec<LineRange>)
    ensures
        r@.len() == with_lines(*first, *second).len(),
        forall|k: int|
            0 <= k < r@.len() ==> (#[trigger] r@[k]).file@ == with_lines(*first, *second)[k].file@ && r@[k].digest@
                == with_lines(*first, *second)[k].digest@ && r@[k].start == with_lines(*first, *second)[k].start
                && r@[k].len == with_lines(*first, *second)[k].len,
{
    let mut out: Vec<LineRange> = Vec::new();
    if let Some(x) = first {
        if x.len > 0 {
            out.push(x.duplicate());
        }
    }
    if let Some(x) = second {
        if x.len > 0 {
            out.push(x.duplicate());
        }
    }
    out
}

/// The file of the diff that one of the anchor's ranges names (head first).
fn span_file<'a>(diff: &'a UnifiedDiff, head: &Option<LineRange>, base: &Option<LineRange>) -> (r: Option<&'a FileDiff>)
    ensures
        match r {
            Some(f) => file_diff_of(diff.files@, *head, *base) == Some(*f),
            None => file_diff_of(diff.files@, *head, *base) is None,
        },
{
    if let Some(h) = head {
        if let Some(f) = find_file(diff, h.file.as_str()) {
            return Some(f);
        }
    }
    if let Some(b) = base {
        return find_file(diff, b.file.as_str());
    }
    None
}

/// The new path of a file of the diff, if there is one.
pub open spec fn new_path_of(fd: Option<FileDiff>) -> Option<Seq<char>> {
    match fd {
        Some(f) => opt_view(f.new_path),
        None => None,
    }
}

/// The old path of a file of the diff, if there is one.
pub open spec fn old_path_of(fd: Option<FileDiff>) -> Option<Seq<char>> {
    match fd {
        Some(f) => opt_view(f.old_path),
        None => None,
    }
}

/// The file a file anchor is about: its head's, else its base's.
pub open spec fn file_label_of(anchor: Anchor) -> Seq<char> {
    match anchor {
        Anchor::File { base, head } => match head {
            Some(h) => h.file@,
            None => match base {
                Some(b) => b.file@,
                None => seq![],
            },
        },
        _ => seq![],
    }
}

/// Whether `p` is where a span anchor with ranges `head` and `base` is
/// drawn, given where its ranges were found (`nl` in the view's head
/// version, `ol` in its base version): the versions are the view's head and
/// base of its file (by the diff's paths for it, or its own), each range
/// found as far as what is held shows, then placed by [`placement_of`], with
/// why the head lacks the lines and what they said.
pub open spec fn span_ok(
    head: Option<LineRange>,
    base: Option<LineRange>,
    diff_files: Seq<FileDiff>,
    files: Seq<FileDigest>,
    tree: Seq<TreeFile>,
    blobs: Blobs,
    p: PlacementV,
    nl: Seq<Option<Located>>,
    ol: Seq<Option<Located>>,
) -> bool {
    let anchor = Anchor::Span { base, head };
    let label = label_of(head, base);
    let fd = file_diff_of(diff_files, head, base);
    let head_path = match fd {
        Some(f) => opt_view(f.new_path),
        None => Some(label),
    };
    let base_path = match fd {
        Some(f) => opt_view(f.old_path),
        None => Some(label),
    };
    let head_digest = match head_path {
        Some(x) => head_spec(files, tree, x),
        None => None,
    };
    let base_digest = match base_path {
        Some(x) => base_spec(files, tree, x),
        None => None,
    };
    let head_first = with_lines(head, base);
    let base_first = with_lines(base, head);
    let origin = if head_first.len() > 0 {
        Some(head_first[0].digest@)
    } else {
        None
    };
    &&& found_as(nl, head_first, head_digest, blobs)
    &&& found_as(ol, base_first, base_digest, blobs)
    &&& placement_of(
        label,
        new_path_of(fd),
        old_path_of(fd),
        nl,
        ol,
        absence_of(blobs.step_list(), origin, head_digest),
        original_text_spec(anchor, blobs),
    ) == p
}

/// Whether `p` is where a span anchor is drawn, for what its ranges are
/// found as (see [`span_ok`]).
pub open spec fn span_placed(
    anchor: Anchor,
    diff_files: Seq<FileDiff>,
    files: Seq<FileDigest>,
    tree: Seq<TreeFile>,
    blobs: Blobs,
    p: PlacementV,
) -> bool {
    match anchor {
        Anchor::Span { base, head } => exists|nl: Seq<Option<Located>>, ol: Seq<Option<Located>>|
            #[trigger] span_ok(head, base, diff_files, files, tree, blobs, p, nl, ol),
        _ => false,
    }
}

/// Whether the anchor's ranges end where `u32` line numbers can say.
pub open spec fn anchor_fits(anchor: Anchor) -> bool {
    match anchor {
        Anchor::Span { base, head } => ranges_fit(present(head, base)),
        _ => true,
    }
}

/// Places `anchor` in the view described by `diff` and `view`.
///
/// A range is followed into both versions of the view. It is drawn on the
/// head side if it still has lines there (looking first at the anchor's own
/// head range, then its base range), else on the base side (the diff removed
/// them: they show as removed lines), else -- everything it covered was
/// removed at some point -- as a point where they were.
pub fn resolve_placement(anchor: &Anchor, diff: &UnifiedDiff, view: &ViewVersions, blobs: &Blobs) -> (r: Placement)
    requires
        anchor_fits(*anchor),
        ranges_start_at_one(*anchor, *blobs),
    ensures
        *anchor is Global ==> r@ == PlacementV::Global,
        *anchor is File ==> r@ == PlacementV::File(file_label_of(*anchor)),
        *anchor is Span ==> span_placed(*anchor, diff.files@, view.files@, view.tree@, *blobs, r@),
{
    match anchor {
        Anchor::Global { .. } => Placement::Global,
        Anchor::File { base, head } => {
            let f = match head {
                Some(h) => copy_string(&h.file),
                None => match base {
                    Some(b) => copy_string(&b.file),
                    None => String::new(),
                },
            };
            Placement::File(f)
        },
        Anchor::Span { base, head } => {
            let label = match head {
                Some(h) => copy_string(&h.file),
                None => match base {
                    Some(b) => copy_string(&b.file),
                    None => String::new(),
                },
            };
            let fd = span_file(diff, head, base);
            let head_path: Option<String> = match fd {
                Some(f) => copy_opt(&f.new_path),
                None => Some(copy_string(&label)),
            };
            let base_path: Option<String> = match fd {
                Some(f) => copy_opt(&f.old_path),
                None => Some(copy_string(&label)),
            };
            let head_digest = match &head_path {
                Some(p) => view.head(p.as_str()),
                None => None,
            };
            let base_digest = match &base_path {
                Some(p) => view.base(p.as_str()),
                None => None,
            };
            let head_first = ranges_with_lines(head, base);
            let base_first = ranges_with_lines(base, head);
            proof {
                assert(ranges_fit(head_first@)) by {
                    assert forall|k: int| 0 <= k < head_first@.len() implies (#[trigger] head_first@[k]).start
                        + head_first@[k].len <= u32::MAX by {
                        let p = present(*head, *base);
                        assert(with_lines(*head, *base)[k] == p[0] || with_lines(*head, *base)[k] == p[p.len() - 1]);
                        assert(p.len() > 0);
                        assert(p[0].start + p[0].len <= u32::MAX);
                        assert(p[p.len() - 1].start + p[p.len() - 1].len <= u32::MAX);
                    }
                }
                assert(ranges_fit(base_first@)) by {
                    assert forall|k: int| 0 <= k < base_first@.len() implies (#[trigger] base_first@[k]).start
                        + base_first@[k].len <= u32::MAX by {
                        let p = present(*head, *base);
                        assert(with_lines(*base, *head)[k] == p[0] || with_lines(*base, *head)[k] == p[p.len() - 1]);
                        assert(p.len() > 0);
                        assert(p[0].start + p[0].len <= u32::MAX);
                        assert(p[p.len() - 1].start + p[p.len() - 1].len <= u32::MAX);
                    }
                }
            }
            let new_locs = locate_each(&head_first, head_digest, blobs);
            let old_locs = locate_each(&base_first, base_digest, blobs);
            let kind = if head_first.len() > 0 {
                match head_digest {
                    Some(h) => {
                        let o = head_first[0].digest.as_str();
                        if blobs.precedes(o, h) {
                            Absence::Deleted
                        } else if blobs.precedes(h, o) {
                            Absence::NotYet
                        } else {
                            Absence::Unknown
                        }
                    },
                    None => Absence::Unknown,
                }
            } else {
                Absence::Unknown
            };
            let was = original_text(anchor, blobs);
            let hf = match fd {
                Some(f) => copy_opt(&f.new_path),
                None => None,
            };
            let bf = match fd {
                Some(f) => copy_opt(&f.old_path),
                None => None,
            };
            let ghost lv = label@;
            let ghost hfv = opt_view(hf);
            let ghost bfv = opt_view(bf);
            let ghost wv = strings_view(was@);
            let r = place_span(label, hf, bf, &new_locs, &old_locs, kind, was);
            proof {
                let hd = match head_digest {
                    Some(d) => Some(d@),
                    None => None::<Seq<char>>,
                };
                let bd = match base_digest {
                    Some(d) => Some(d@),
                    None => None::<Seq<char>>,
                };
                lemma_found_as_copies(new_locs@, head_first@, with_lines(*head, *base), hd, *blobs);
                lemma_found_as_copies(old_locs@, base_first@, with_lines(*base, *head), bd, *blobs);
                assert(placement_of(lv, hfv, bfv, new_locs@, old_locs@, kind, wv) == r@);
                let fds = file_diff_of(diff.files@, *head, *base);
                assert(lv == label_of(*head, *base));
                assert(hfv == new_path_of(fds));
                assert(bfv == old_path_of(fds));
                let hp = match fds {
                    Some(f) => opt_view(f.new_path),
                    None => Some(lv),
                };
                assert(opt_view(head_path) == hp);
                assert(hd == match hp {
                    Some(x) => head_spec(view.files@, view.tree@, x),
                    None => None,
                });
                let origin = if with_lines(*head, *base).len() > 0 {
                    Some(with_lines(*head, *base)[0].digest@)
                } else {
                    None
                };
                assert(kind == absence_of(blobs.step_list(), origin, hd));
                assert(wv == original_text_spec(*anchor, *blobs));
                assert(found_as(new_locs@, with_lines(*head, *base), hd, *blobs));
                let bp = match fds {
                    Some(f) => opt_view(f.old_path),
                    None => Some(lv),
                };
                assert(opt_view(base_path) == bp);
                assert(bd == match bp {
                    Some(x) => base_spec(view.files@, view.tree@, x),
                    None => None,
                });
                assert(found_as(old_locs@, with_lines(*base, *head), bd, *blobs));
                assert(*anchor == Anchor::Span { base: *base, head: *head });
                assert(placement_of(
                    label_of(*head, *base),
                    new_path_of(fds),
                    old_path_of(fds),
                    new_locs@,
                    old_locs@,
                    absence_of(blobs.step_list(), origin, hd),
                    original_text_spec(*anchor, *blobs),
                ) == r@);
                assert(span_ok(*head, *base, diff.files@, view.files@, view.tree@, *blobs, r@, new_locs@, old_locs@));
                assert(span_placed(*anchor, diff.files@, view.files@, view.tree@, *blobs, r@));
            }
            r
        },
    }
}

/// What is known of where ranges were found depends only on their digests
/// and positions.
proof fn lemma_found_as_copies(
    locs: Seq<Option<Located>>,
    copies: Seq<LineRange>,
    ranges: Seq<LineRange>,
    digest: Option<Seq<char>>,
    blobs: Blobs,
)
    requires
        found_as(locs, copies, digest, blobs),
        copies.len() == ranges.len(),
        forall|k: int|
            0 <= k < copies.len() ==> (#[trigger] copies[k]).digest@ == ranges[k].digest@ && copies[k].start
                == ranges[k].start && copies[k].len == ranges[k].len,
    ensures
        found_as(locs, ranges, digest, blobs),
{
    assert forall|k: int| 0 <= k < ranges.len() implies match digest {
        None => #[trigger] locs[k] is None,
        Some(d) => {
            &&& ranges[k].digest@ == d ==> locs[k] == Some(Located { start: ranges[k].start, len: ranges[k].len })
            &&& ranges[k].digest@ != d && (!blobs.held(ranges[k].digest@) || !blobs.held(d)) ==> locs[k] is None
        },
    } by {
        assert(copies[k].digest@ == ranges[k].digest@);
    }
}


} // verus!
