//! The data a page is drawn from, worked out here and nothing about how it
//! is laid out: what happened to each file, and where each thread is in a
//! revision, in the words the page uses.

use crate::anchor::{Absence, Placement};
use crate::diff::{DiffLine, FileDiff, Hunk, LineKind};
use crate::linediff::myers_of;
use crate::words::{changed, line_changes, pair_view, texts, tokens};
use crate::model::{Event, Side};
use crate::annotation::{ulid_string, ulid_text};
use crate::markdown::{md_events_of, nodes_view, tree, tree_spec, Node, NodeV};
use crate::review::{build_threads, thread_view, threads_spec, Thread, ThreadV};
use crate::text::copy_string;
use vstd::prelude::*;

verus! {

/// What happened to a file, in the words the page uses: `modified`,
/// `added`, `deleted`, `renamed`, `binary`, or `context` (not in the diff:
/// shown for the threads that are on it).
pub open spec fn status_spec(file: Option<FileDiff>, in_diff: bool) -> Seq<char> {
    match file {
        Some(f) if in_diff => if f.is_binary {
            "binary"@
        } else if f.new_path is None {
            "deleted"@
        } else if f.old_path is None {
            "added"@
        } else if f.is_rename {
            "renamed"@
        } else {
            "modified"@
        },
        _ => "context"@,
    }
}

pub fn file_status(file: Option<&FileDiff>, in_diff: bool) -> (r: &'static str)
    ensures
        r@ == status_spec(match file {
            Some(f) => Some(*f),
            None => None,
        }, in_diff),
{
    match file {
        Some(f) if in_diff => if f.is_binary {
            "binary"
        } else if f.new_path.is_none() {
            "deleted"
        } else if f.old_path.is_none() {
            "added"
        } else if f.is_rename {
            "renamed"
        } else {
            "modified"
        },
        _ => "context",
    }
}

/// Where a thread is in one revision, as the page has it.
#[derive(Debug, Clone, PartialEq, Eq)]
pub enum PlacementData {
    /// On lines: `start..=end` on `side` (`new` or `old`), and, on a `new`
    /// placement, the old-side lines it also covers (a replaced block).
    /// `color` numbers the thread's color (the page has the palette).
    Line { file: String, side: &'static str, start: u32, end: u32, old_range: Option<[u32; 2]>, color: usize },
    File { file: String },
    Global,
    /// The lines the thread is about are not in this revision: it sits at the
    /// point before line `before` of the new side, with what they said (`was`).
    /// `absence` is `deleted` (removed since), `not-yet` (only in a later
    /// version) or `unknown`.
    Point { file: String, before: u32, absence: &'static str, was: Vec<String> },
    /// The versions needed to place it are not held: listed with its file.
    Unplaced { file: String, was: Vec<String> },
}

/// The word the page uses for why lines are absent.
pub open spec fn absence_word(kind: Absence) -> Seq<char> {
    match kind {
        Absence::Deleted => "deleted"@,
        Absence::NotYet => "not-yet"@,
        Absence::Unknown => "unknown"@,
    }
}

/// The word the page uses for a side.
pub open spec fn side_word(side: Side) -> Seq<char> {
    match side {
        Side::Old => "old"@,
        Side::New => "new"@,
    }
}

/// `d` is `p` as the page has it, with the thread's `color` (0 if it has
/// none) and, for a thread that cannot be placed, what its lines said.
pub open spec fn placement_data_spec(p: Placement, color: Option<usize>, was: Option<Seq<Seq<char>>>, d: PlacementData) -> bool {
    match p {
        Placement::Global => d is Global,
        Placement::File(file) => d matches PlacementData::File { file: f } && f@ == file@,
        Placement::Line { file, side, line_start, line_end, old_range } => d matches PlacementData::Line {
            file: f,
            side: s,
            start,
            end,
            old_range: o,
            color: c,
        } && f@ == file@ && s@ == side_word(side) && start == line_start && end == line_end && match old_range {
            Some((a, b)) => o matches Some(x) && x@ == seq![a, b],
            None => o is None,
        } && c == match color {
            Some(c) => c,
            None => 0,
        },
        Placement::Point { file, before, was: w, kind } => d matches PlacementData::Point {
            file: f,
            before: b,
            absence,
            was: w2,
        } && f@ == file@ && b == before && absence@ == absence_word(kind) && crate::text::strings_of(w2@)
            == crate::text::strings_of(w@),
        Placement::Unplaced { file } => d matches PlacementData::Unplaced { file: f, was: w2 } && f@ == file@
            && crate::text::strings_of(w2@) == match was {
            Some(w) => w,
            None => Seq::<Seq<char>>::empty(),
        },
    }
}

fn copy_strings(v: &Vec<String>) -> (r: Vec<String>)
    ensures
        crate::text::strings_of(r@) == crate::text::strings_of(v@),
{
    let mut out: Vec<String> = Vec::new();
    for i in 0..v.len()
        invariant
            crate::text::strings_of(out@) == crate::text::strings_of(v@.take(i as int)),
    {
        let ghost before = out@;
        out.push(copy_string(&v[i]));
        proof {
            assert(v@.take(i + 1) =~= v@.take(i as int).push(v@[i as int]));
            assert(crate::text::strings_of(v@.take(i + 1)) =~= crate::text::strings_of(v@.take(i as int)).push(
                v@[i as int]@,
            ));
            assert(crate::text::strings_of(out@) =~= crate::text::strings_of(before).push(v@[i as int]@));
        }
    }
    proof {
        assert(v@.take(v@.len() as int) =~= v@);
    }
    out
}

/// Where a thread is, as the page draws it.
pub fn placement_data(placement: &Placement, color: Option<usize>, was: Option<&Vec<String>>) -> (r: PlacementData)
    ensures
        placement_data_spec(*placement, color, match was {
            Some(w) => Some(crate::text::strings_of(w@)),
            None => None,
        }, r),
{
    match placement {
        Placement::Global => PlacementData::Global,
        Placement::File(file) => PlacementData::File { file: copy_string(file) },
        Placement::Line { file, side, line_start, line_end, old_range } => {
            let s: &'static str = match side {
                Side::Old => "old",
                Side::New => "new",
            };
            let o = match old_range {
                Some((a, b)) => {
                    let x = [*a, *b];
                    proof {
                        assert(x@ =~= seq![*a, *b]);
                    }
                    Some(x)
                },
                None => None,
            };
            PlacementData::Line {
                file: copy_string(file),
                side: s,
                start: *line_start,
                end: *line_end,
                old_range: o,
                color: match color {
                    Some(c) => c,
                    None => 0,
                },
            }
        },
        Placement::Point { file, before, was: w, kind } => PlacementData::Point {
            file: copy_string(file),
            before: *before,
            absence: match kind {
                Absence::Deleted => "deleted",
                Absence::NotYet => "not-yet",
                Absence::Unknown => "unknown",
            },
            was: copy_strings(w),
        },
        Placement::Unplaced { file } => {
            let w2: Vec<String> = match was {
                Some(w) => copy_strings(w),
                None => {
                    let v: Vec<String> = Vec::new();
                    proof {
                        assert(crate::text::strings_of(v@) =~= Seq::<Seq<char>>::empty());
                    }
                    v
                },
            };
            PlacementData::Unplaced { file: copy_string(file), was: w2 }
        },
    }
}


/// What `words::changed` gives for a removed line and the added line that
/// takes its place.
pub open spec fn word_changes(old: Seq<char>, new: Seq<char>) -> Option<(Seq<(int, int)>, Seq<(int, int)>)> {
    line_changes(old, new, myers_of(texts(old, tokens(old)), texts(new, tokens(new))))
}

pub open spec fn kinds(ls: Seq<DiffLine>) -> Seq<LineKind> {
    ls.map_values(|l: DiffLine| l.kind)
}

/// Where the run of lines of `kind` that holds the `j`th starts.
pub open spec fn run_start(ks: Seq<LineKind>, j: int, kind: LineKind) -> int
    decreases j,
{
    if j > 0 && ks[j - 1] == kind {
        run_start(ks, j - 1, kind)
    } else {
        j
    }
}

/// Where the run of lines of `kind` from the `j`th on ends.
pub open spec fn run_end(ks: Seq<LineKind>, j: int, kind: LineKind) -> int
    decreases ks.len() - j,
{
    if 0 <= j < ks.len() && ks[j] == kind {
        run_end(ks, j + 1, kind)
    } else {
        j
    }
}

/// The changed words of the `j`th line of a hunk: a run of removed lines is
/// paired, in order, with the run of added lines right after it, and each
/// pair shows what `words::changed` finds in it; other lines show none.
pub open spec fn marks_of(ls: Seq<DiffLine>, j: int) -> Seq<(int, int)> {
    let ks = kinds(ls);
    if ks[j] == LineKind::Removed {
        let rs = run_start(ks, j, LineKind::Removed);
        let re = run_end(ks, j, LineKind::Removed);
        let ae = run_end(ks, re, LineKind::Added);
        let k = j - rs;
        if k < ae - re {
            match word_changes(ls[j].content@, ls[re + k].content@) {
                Some((o, _)) => o,
                None => seq![],
            }
        } else {
            seq![]
        }
    } else if ks[j] == LineKind::Added {
        let a = run_start(ks, j, LineKind::Added);
        if a > 0 && ks[a - 1] == LineKind::Removed {
            let rs = run_start(ks, a - 1, LineKind::Removed);
            let k = j - a;
            if k < a - rs {
                match word_changes(ls[rs + k].content@, ls[j].content@) {
                    Some((_, n)) => n,
                    None => seq![],
                }
            } else {
                seq![]
            }
        } else {
            seq![]
        }
    } else {
        seq![]
    }
}

proof fn lemma_run_start(ks: Seq<LineKind>, a: int, j: int, kind: LineKind)
    requires
        0 <= a <= j < ks.len(),
        forall|i: int| a <= i <= j ==> ks[i] == kind,
        a == 0 || ks[a - 1] != kind,
    ensures
        run_start(ks, j, kind) == a,
    decreases j - a,
{
    if j > a {
        lemma_run_start(ks, a, j - 1, kind);
    }
}

proof fn lemma_run_end(ks: Seq<LineKind>, j: int, b: int, kind: LineKind)
    requires
        0 <= j <= b <= ks.len(),
        forall|i: int| j <= i < b ==> ks[i] == kind,
        b == ks.len() || ks[b] != kind,
    ensures
        run_end(ks, j, kind) == b,
    decreases b - j,
{
    if j < b {
        lemma_run_end(ks, j + 1, b, kind);
    }
}

/// The changed words of each line of `hunk`, as `[start, end)` spans in
/// UTF-16 code units of its text (see `marks_of`).
pub fn mark_words(hunk: &Hunk) -> (r: Vec<Vec<[u32; 2]>>)
    ensures
        r@.len() == hunk.lines@.len(),
        forall|j: int| 0 <= j < r@.len() ==> pair_view(#[trigger] r@[j]@) == marks_of(hunk.lines@, j),
{
    let lines = &hunk.lines;
    let ghost ls = lines@;
    let ghost ks = kinds(ls);
    let n = lines.len();
    let mut out: Vec<Vec<[u32; 2]>> = Vec::new();
    let mut i: usize = 0;
    while i < n
        invariant
            i <= n == ls.len(),
            ls == lines@,
            ks == kinds(ls),
            out@.len() == i,
            forall|j: int| 0 <= j < i ==> pair_view(#[trigger] out@[j]@) == marks_of(ls, j),
            0 < i < n ==> !(ks[i - 1] == LineKind::Removed && ks[i as int] == LineKind::Removed),
            i < n && ks[i as int] == LineKind::Added ==> !(run_start(ks, i as int, LineKind::Added) > 0
                && ks[run_start(ks, i as int, LineKind::Added) - 1] == LineKind::Removed),
        decreases n - i,
    {
        if lines[i].kind != LineKind::Removed {
            assert(ks[i as int] == lines@[i as int].kind);
            let ghost before = out@;
            out.push(Vec::new());
            assert(pair_view(out@[i as int]@) =~= marks_of(ls, i as int));
            assert forall|j: int| 0 <= j < i + 1 implies pair_view(#[trigger] out@[j]@) == marks_of(ls, j) by {
                if j < i {
                    assert(out@[j] == before[j]);
                }
            }
            proof {
                if i + 1 < n && ks[i + 1] == LineKind::Added && ks[i as int] == LineKind::Added {
                    assert(run_start(ks, i + 1, LineKind::Added) == run_start(ks, i as int, LineKind::Added));
                }
            }
            i += 1;
        } else {
            let rs = i;
            let mut re = i;
            while re < n && lines[re].kind == LineKind::Removed
                invariant
                    rs <= re <= n == ls.len(),
                    ls == lines@,
                    ks == kinds(ls),
                    forall|t: int| rs <= t < re ==> ks[t] == LineKind::Removed,
                decreases n - re,
            {
                re += 1;
            }
            let mut ae = re;
            while ae < n && lines[ae].kind == LineKind::Added
                invariant
                    re <= ae <= n == ls.len(),
                    ls == lines@,
                    ks == kinds(ls),
                    forall|t: int| re <= t < ae ==> ks[t] == LineKind::Added,
                decreases n - ae,
            {
                ae += 1;
            }
            assert(re == n || ks[re as int] != LineKind::Removed);
            assert(ae == n || ks[ae as int] != LineKind::Added);
            assert(rs == 0 || ks[rs - 1] != LineKind::Removed);
            let m = if re - rs < ae - re {
                re - rs
            } else {
                ae - re
            };
            let mut news: Vec<Vec<[u32; 2]>> = Vec::new();
            let mut k: usize = 0;
            while k < re - rs
                invariant
                    rs < re <= ae <= n == ls.len(),
                    ls == lines@,
                    ks == kinds(ls),
                    forall|t: int| rs <= t < re ==> ks[t] == LineKind::Removed,
                    forall|t: int| re <= t < ae ==> ks[t] == LineKind::Added,
                    re == n || ks[re as int] != LineKind::Removed,
                    ae == n || ks[ae as int] != LineKind::Added,
                    rs == 0 || ks[rs - 1] != LineKind::Removed,
                    m <= re - rs,
                    m <= ae - re,
                    m == re - rs || m == ae - re,
                    k <= re - rs,
                    out@.len() == rs + k,
                    forall|j: int| 0 <= j < rs + k ==> pair_view(#[trigger] out@[j]@) == marks_of(ls, j),
                    news@.len() == if k < m { k } else { m },
                    forall|q: int| 0 <= q < news@.len() ==> pair_view(#[trigger] news@[q]@) == match word_changes(ls[rs + q].content@, ls[re + q].content@) {
                        Some((_, nn)) => nn,
                        None => seq![],
                    },
                decreases re - rs - k,
            {
                let j = rs + k;
                proof {
                    lemma_run_start(ks, rs as int, j as int, LineKind::Removed);
                    lemma_run_end(ks, j as int, re as int, LineKind::Removed);
                    lemma_run_end(ks, re as int, ae as int, LineKind::Added);
                }
                let ghost before = out@;
                if k < m {
                    match changed(lines[j].content.as_str(), lines[re + k].content.as_str()) {
                        Some((o, nn)) => {
                            out.push(o);
                            news.push(nn);
                        },
                        None => {
                            out.push(Vec::new());
                            news.push(Vec::new());
                            assert(pair_view(news@[k as int]@) =~= seq![]);
                        },
                    }
                } else {
                    out.push(Vec::new());
                }
                assert(pair_view(out@[j as int]@) =~= marks_of(ls, j as int));
                assert forall|t: int| 0 <= t < j + 1 implies pair_view(#[trigger] out@[t]@) == marks_of(ls, t) by {
                    if t < j {
                        assert(out@[t] == before[t]);
                    }
                }
                k += 1;
            }
            let mut k: usize = 0;
            while k < ae - re
                invariant
                    rs < re <= ae <= n == ls.len(),
                    ls == lines@,
                    ks == kinds(ls),
                    forall|t: int| rs <= t < re ==> ks[t] == LineKind::Removed,
                    forall|t: int| re <= t < ae ==> ks[t] == LineKind::Added,
                    re == n || ks[re as int] != LineKind::Removed,
                    ae == n || ks[ae as int] != LineKind::Added,
                    rs == 0 || ks[rs - 1] != LineKind::Removed,
                    m <= re - rs,
                    m <= ae - re,
                    m == re - rs || m == ae - re,
                    k <= ae - re,
                    out@.len() == re + k,
                    forall|j: int| 0 <= j < re + k ==> pair_view(#[trigger] out@[j]@) == marks_of(ls, j),
                    news@.len() == if k < m { m - k } else { 0 },
                    forall|q: int| 0 <= q < news@.len() ==> pair_view(#[trigger] news@[q]@) == match word_changes(ls[rs + k + q].content@, ls[re + k + q].content@) {
                        Some((_, nn)) => nn,
                        None => seq![],
                    },
                decreases ae - re - k,
            {
                let j = re + k;
                proof {
                    lemma_run_start(ks, re as int, j as int, LineKind::Added);
                    lemma_run_start(ks, rs as int, re - 1, LineKind::Removed);
                }
                let ghost before = out@;
                let ghost old_news = news@;
                if k < m {
                    let w = news.remove(0);
                    out.push(w);
                    assert forall|q: int| 0 <= q < news@.len() implies pair_view(#[trigger] news@[q]@) == match word_changes(ls[rs + (k + 1) + q].content@, ls[re + (k + 1) + q].content@) {
                        Some((_, nn)) => nn,
                        None => seq![],
                    } by {
                        assert(news@[q] == old_news[q + 1]);
                    }
                } else {
                    out.push(Vec::new());
                }
                assert(pair_view(out@[j as int]@) =~= marks_of(ls, j as int));
                assert forall|t: int| 0 <= t < j + 1 implies pair_view(#[trigger] out@[t]@) == marks_of(ls, t) by {
                    if t < j {
                        assert(out@[t] == before[t]);
                    }
                }
                k += 1;
            }
            proof {
                if ae < n && ks[ae as int] == LineKind::Added {
                    assert(false);
                }
            }
            i = ae;
        }
    }
    out
}

// ---- the threads as the page has them -------------------------------------------------

/// The ids of the replies to the thread `root`, in the log's order.
pub open spec fn reply_ids(events: Seq<Event>, root: u128) -> Seq<u128>
    decreases events.len(),
{
    if events.len() == 0 {
        seq![]
    } else {
        let rest = reply_ids(events.drop_last(), root);
        match events.last() {
            Event::Comment { id, parent: Some(p), .. } => if p == root {
                rest.push(id)
            } else {
                rest
            },
            _ => rest,
        }
    }
}

/// Whether `ids` holds, by thread id in increasing order, each thread that
/// has replies with the ids of its replies in the log `events`.
pub open spec fn ids_by_thread(ids: Seq<(u128, Vec<u128>)>, events: Seq<Event>) -> bool {
    &&& forall|i: int, j: int| 0 <= i < j < ids.len() ==> #[trigger] ids[i].0 < #[trigger] ids[j].0
    &&& forall|i: int| 0 <= i < ids.len() ==> (#[trigger] ids[i]).1@ == reply_ids(events, ids[i].0)
    &&& forall|root: u128| #[trigger] reply_ids(events, root).len() > 0 ==> exists|i: int| 0 <= i < ids.len() && ids[i].0 == root
}

/// The ids of each thread's replies, in order, by thread id (a thread's
/// replies have no id of their own in `Thread`).
pub fn comment_ids(events: &[Event]) -> (r: Vec<(u128, Vec<u128>)>)
    ensures
        ids_by_thread(r@, events@),
{
    let mut out: Vec<(u128, Vec<u128>)> = Vec::new();
    for e in 0..events.len()
        invariant
            ids_by_thread(out@, events@.take(e as int)),
    {
        let ghost pre = events@.take(e as int);
        let ghost cur = events@.take(e + 1);
        proof {
            assert(cur.drop_last() == pre);
            assert(cur.last() == events@[e as int]);
        }
        match &events[e] {
            Event::Comment { id, parent: Some(p), .. } => {
                let p = *p;
                let id = *id;
                let mut k: usize = 0;
                while k < out.len() && out[k].0 < p
                    invariant
                        k <= out@.len(),
                        forall|q: int| 0 <= q < k ==> (#[trigger] out@[q]).0 < p,
                    decreases out.len() - k,
                {
                    k += 1;
                }
                let ghost before = out@;
                if k < out.len() && out[k].0 == p {
                    let (key, mut list) = out.remove(k);
                    list.push(id);
                    out.insert(k, (key, list));
                    proof {
                        assert(out@ =~= before.update(k as int, (key, list)));
                        assert forall|i: int| 0 <= i < out@.len() implies (#[trigger] out@[i]).1@ == reply_ids(cur, out@[i].0) by {
                            if i != k {
                                assert(out@[i] == before[i]);
                                assert(before[i].0 != p);
                            }
                        }
                        assert forall|root: u128| #[trigger] reply_ids(cur, root).len() > 0 implies exists|i: int| 0 <= i < out@.len() && out@[i].0 == root by {
                            if root == p {
                                assert(out@[k as int].0 == root);
                            } else {
                                assert(reply_ids(cur, root) == reply_ids(pre, root));
                                assert(reply_ids(pre, root).len() > 0);
                                let i = choose|i: int| 0 <= i < before.len() && before[i].0 == root;
                                assert(out@[i].0 == root);
                            }
                        }
                    }
                } else {
                    let mut list: Vec<u128> = Vec::new();
                    list.push(id);
                    out.insert(k, (p, list));
                    proof {
                        assert(reply_ids(pre, p).len() == 0) by {
                            if reply_ids(pre, p).len() > 0 {
                                let i = choose|i: int| 0 <= i < before.len() && before[i].0 == p;
                                if i < k {
                                    assert(before[i].0 < p);
                                } else {
                                    assert(before[k as int].0 <= before[i].0);
                                }
                            }
                        }
                        assert(list@ =~= seq![id]);
                        assert(reply_ids(cur, p) =~= seq![id]);
                        assert forall|i: int, j: int| 0 <= i < j < out@.len() implies #[trigger] out@[i].0 < #[trigger] out@[j].0 by {
                            if k < before.len() && j > k {
                                assert(before[k as int].0 > p) by {
                                    assert(before[k as int].0 >= p);
                                }
                            }
                            if i < k && j == k {
                            } else if i < k && j > k {
                                assert(out@[j] == before[j - 1]);
                            } else if i == k && j > k {
                                assert(out@[j] == before[j - 1]);
                                if j - 1 > k {
                                    assert(before[k as int].0 < before[j - 1].0);
                                }
                            } else if i > k {
                                assert(out@[i] == before[i - 1] && out@[j] == before[j - 1]);
                            }
                        }
                        assert forall|i: int| 0 <= i < out@.len() implies (#[trigger] out@[i]).1@ == reply_ids(cur, out@[i].0) by {
                            if i < k {
                                assert(out@[i] == before[i]);
                            } else if i > k {
                                assert(out@[i] == before[i - 1]);
                            }
                        }
                        assert forall|root: u128| #[trigger] reply_ids(cur, root).len() > 0 implies exists|i: int| 0 <= i < out@.len() && out@[i].0 == root by {
                            if root == p {
                                assert(out@[k as int].0 == root);
                            } else {
                                assert(reply_ids(cur, root) == reply_ids(pre, root));
                                assert(reply_ids(pre, root).len() > 0);
                                let i = choose|i: int| 0 <= i < before.len() && before[i].0 == root;
                                if i < k {
                                    assert(out@[i].0 == root);
                                } else {
                                    assert(out@[i + 1].0 == root);
                                }
                            }
                        }
                    }
                }
            },
            _ => {
                proof {
                    assert forall|root: u128| reply_ids(cur, root) == reply_ids(pre, root) by {
                    }
                }
            },
        }
    }
    assert(events@.take(events@.len() as int) == events@);
    out
}

/// A comment as the page has it.
#[derive(Debug)]
pub struct CommentData {
    pub id: String,
    pub author: String,
    /// When it was written (RFC 3339).
    pub at: String,
    /// The text as a tree (see `markdown`), not HTML.
    pub doc: Vec<Node>,
    /// The text as written (the served page only: to edit it); empty
    /// otherwise.
    pub body: String,
}

/// A thread as the page has it.
#[derive(Debug)]
pub struct ThreadData {
    pub id: String,
    pub resolved: bool,
    /// The first comment, then the replies.
    pub comments: Vec<CommentData>,
}

pub struct CommentDataV {
    pub id: Seq<char>,
    pub author: Seq<char>,
    pub at: Seq<char>,
    pub doc: Seq<NodeV>,
    pub body: Seq<char>,
}

pub open spec fn comment_view(c: CommentData) -> CommentDataV {
    CommentDataV { id: c.id@, author: c.author@, at: c.at@, doc: nodes_view(c.doc@), body: c.body@ }
}

/// The comment `id` as the page has it.
pub open spec fn comment_spec(id: u128, author: Seq<char>, at: Seq<char>, body: Seq<char>, with_body: bool) -> CommentDataV {
    CommentDataV {
        id: ulid_text(id),
        author,
        at,
        doc: tree_spec(md_events_of(body)),
        body: if with_body {
            body
        } else {
            Seq::empty()
        },
    }
}

/// The reply ids `ids` has for thread `root` (none where it has no entry).
pub open spec fn ids_of(ids: Seq<(u128, Vec<u128>)>, root: u128) -> Seq<u128>
    decreases ids.len(),
{
    if ids.len() == 0 {
        seq![]
    } else if ids[0].0 == root {
        ids[0].1@
    } else {
        ids_of(ids.drop_first(), root)
    }
}

fn ids_for(ids: &[(u128, Vec<u128>)], root: u128) -> (r: &[u128])
    ensures
        r@ == ids_of(ids@, root),
{
    assert(ids@.skip(0) =~= ids@);
    for i in 0..ids.len()
        invariant
            ids_of(ids@, root) == ids_of(ids@.skip(i as int), root),
    {
        assert(ids@.skip(i as int).drop_first() =~= ids@.skip(i + 1));
        assert(ids@.skip(i as int)[0] == ids@[i as int]);
        if ids[i].0 == root {
            return ids[i].1.as_slice();
        }
    }
    assert(ids@.skip(ids@.len() as int) =~= Seq::<(u128, Vec<u128>)>::empty());
    &[]
}

fn comment_data(id: u128, author: &String, at: &String, body: &String, with_body: bool) -> (r: CommentData)
    ensures
        comment_view(r) == comment_spec(id, author@, at@, body@, with_body),
{
    CommentData {
        id: ulid_string(id),
        author: copy_string(author),
        at: copy_string(at),
        doc: tree(body.as_str()),
        body: if with_body {
            copy_string(body)
        } else {
            String::new()
        },
    }
}

/// One thread as the page has it: its first comment, then each reply with
/// its id (`ids`, see `comment_ids`), as far as both go. `with_body` keeps
/// each comment's text as written (the served page, to edit it).
pub fn thread_data(thread: &Thread, ids: &[(u128, Vec<u128>)], with_body: bool) -> (r: ThreadData)
    ensures
        r.id@ == ulid_text(thread.root_id),
        r.resolved == thread.resolved,
        ({
            let n = if thread.replies@.len() < ids_of(ids@, thread.root_id).len() {
                thread.replies@.len() as int
            } else {
                ids_of(ids@, thread.root_id).len() as int
            };
            r.comments@.len() == 1 + n
        }),
        comment_view(r.comments@[0]) == comment_spec(
            thread.root_id,
            thread.author@,
            thread.created_at@,
            thread.body@,
            with_body,
        ),
        forall|k: int|
            0 <= k < r.comments@.len() - 1 ==> comment_view(#[trigger] r.comments@[k + 1]) == comment_spec(
                ids_of(ids@, thread.root_id)[k],
                thread.replies@[k].author@,
                thread.replies@[k].created_at@,
                thread.replies@[k].body@,
                with_body,
            ),
{
    let reply_ids = ids_for(ids, thread.root_id);
    let mut comments: Vec<CommentData> = Vec::new();
    comments.push(comment_data(thread.root_id, &thread.author, &thread.created_at, &thread.body, with_body));
    let n = if thread.replies.len() < reply_ids.len() {
        thread.replies.len()
    } else {
        reply_ids.len()
    };
    for k in 0..n
        invariant
            n <= thread.replies@.len(),
            n <= reply_ids@.len(),
            reply_ids@ == ids_of(ids@, thread.root_id),
            comments@.len() == 1 + k,
            comment_view(comments@[0]) == comment_spec(
                thread.root_id,
                thread.author@,
                thread.created_at@,
                thread.body@,
                with_body,
            ),
            forall|q: int|
                0 <= q < k ==> comment_view(#[trigger] comments@[q + 1]) == comment_spec(
                    reply_ids@[q],
                    thread.replies@[q].author@,
                    thread.replies@[q].created_at@,
                    thread.replies@[q].body@,
                    with_body,
                ),
    {
        let r = &thread.replies[k];
        let c = comment_data(reply_ids[k], &r.author, &r.created_at, &r.body, with_body);
        let ghost before = comments@;
        comments.push(c);
        assert forall|q: int| 0 <= q < k + 1 implies comment_view(#[trigger] comments@[q + 1]) == comment_spec(
            reply_ids@[q],
            thread.replies@[q].author@,
            thread.replies@[q].created_at@,
            thread.replies@[q].body@,
            with_body,
        ) by {
            if q < k {
                assert(comments@[q + 1] == before[q + 1]);
            }
        }
    }
    ThreadData { id: ulid_string(thread.root_id), resolved: thread.resolved, comments }
}

/// One thread of the log as the page has it, with the comments' text as
/// written (after a reply, or a resolve): `None` where no thread has the
/// root `id`.
pub fn thread_json(events: &[Event], id: u128) -> (r: Option<ThreadData>)
    ensures
        match r {
            Some(t) => exists|i: int|
                0 <= i < threads_spec(events@).len() && (#[trigger] threads_spec(events@)[i]).root_id == id
                    && t.id@ == ulid_text(id),
            None => forall|i: int| 0 <= i < threads_spec(events@).len() ==> (#[trigger] threads_spec(events@)[i]).root_id != id,
        },
{
    let ids = comment_ids(events);
    let threads = build_threads(events);
    let ghost tv = threads@.map_values(|t: Thread| thread_view(t));
    for i in 0..threads.len()
        invariant
            tv == threads@.map_values(|t: Thread| thread_view(t)),
            tv == threads_spec(events@),
            forall|j: int| 0 <= j < i ==> (#[trigger] tv[j]).root_id != id,
    {
        assert(tv[i as int].root_id == threads@[i as int].root_id);
        if threads[i].root_id == id {
            return Some(thread_data(&threads[i], ids.as_slice(), true));
        }
    }
    None
}

} // verus!
