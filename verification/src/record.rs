//! What an editing session adds to a bundle besides its events: the file
//! versions that everything the review refers to needs, each recorded by
//! path and digest.

use crate::digest::{digest, digest_of};
use crate::files::{lemma_lex_total, lemma_lex_trans, lex_less, lex_lt, Tree};
use crate::bundle::{copy_bytes, manifest, manifest_spec, revisions, revisions_spec, tree_view, Additions};
use crate::digest::entries_view;
use crate::files::digests_view;
use crate::model::{copy_anchor, Anchor, AnchorV, Event, FileDigest, Revision, SnapshotMode, Source, TreeFile};
use crate::text::{copy_opt, copy_string, opt_view, same_string, strings_of};
use vstd::prelude::*;

verus! {

/// The reviewed change, as one session saw it.
pub struct Capture<'a> {
    pub diff_text: &'a str,
    /// The revision's digest.
    pub diff_digest: &'a str,
    pub source: Source,
    /// Per-file digests of what the diff touches.
    pub files: &'a [FileDigest],
    /// Head-side content of the files the diff touches.
    pub new_files: &'a Tree,
    /// Base-side content of the files the diff touches, when the base is not
    /// already in the bundle.
    pub base_files: &'a Tree,
}

/// A file of a recorded head tree: its path and the digest of its bytes.
pub fn tree_file(path: &str, bytes: &[u8]) -> (r: TreeFile)
    ensures
        r.path@ == path@,
        r.digest@ == digest_of(bytes@),
{
    TreeFile { path: path.to_owned(), digest: digest(bytes) }
}

/// The files an anchor points at: its base side's, then its head side's.
pub open spec fn anchor_files(a: Anchor) -> Seq<Seq<char>> {
    match a {
        Anchor::Global { .. } => Seq::empty(),
        Anchor::File { base, head } => (match base {
            Some(f) => seq![f.file@],
            None => Seq::empty(),
        }) + match head {
            Some(f) => seq![f.file@],
            None => Seq::empty(),
        },
        Anchor::Span { base, head } => (match base {
            Some(r) => seq![r.file@],
            None => Seq::empty(),
        }) + match head {
            Some(r) => seq![r.file@],
            None => Seq::empty(),
        },
    }
}

/// The files the anchors point at, in order, with repeats.
pub open spec fn all_anchor_files(anchors: Seq<Anchor>) -> Seq<Seq<char>>
    decreases anchors.len(),
{
    if anchors.len() == 0 {
        Seq::empty()
    } else {
        all_anchor_files(anchors.drop_last()) + anchor_files(anchors.last())
    }
}

/// Whether `v` is in strictly increasing order (so each path is there once).
pub open spec fn sorted_strs(v: Seq<Seq<char>>) -> bool {
    forall|i: int, j: int| 0 <= i < j < v.len() ==> lex_lt(#[trigger] v[i], #[trigger] v[j])
}

/// Puts `s` in its place in the sorted `v`, unless it is there.
pub fn insert_sorted(v: &mut Vec<String>, s: &String)
    requires
        sorted_strs(strings_of(old(v)@)),
    ensures
        sorted_strs(strings_of(final(v)@)),
        forall|x: Seq<char>| strings_of(final(v)@).contains(x) <==> (strings_of(old(v)@).contains(x) || x == s@),
        final(v)@.len() <= old(v)@.len() + 1,
{
    let ghost before = strings_of(v@);
    let mut k: usize = 0;
    while k < v.len() && lex_less(v[k].as_str(), s.as_str())
        invariant
            k <= v@.len(),
            *v == *old(v),
            before == strings_of(v@),
            sorted_strs(before),
            forall|j: int| 0 <= j < k ==> lex_lt(#[trigger] before[j], s@),
        decreases v@.len() - k,
    {
        k = k + 1;
    }
    proof {
        assert forall|j: int| k <= j < before.len() implies !lex_lt(#[trigger] before[j], s@) by {
            if j > k && lex_lt(before[j], s@) {
                lemma_lex_trans(before[k as int], before[j], s@);
            }
        }
        if k < before.len() {
            lemma_lex_total(before[k as int], s@);
        }
    }
    if k < v.len() && same_string(&v[k], s) {
        proof {
            assert(before[k as int] == s@);
        }
        return;
    }
    v.insert(k, copy_string(s));
    proof {
        let after = strings_of(v@);
        assert(after =~= before.insert(k as int, s@));
        assert forall|i: int, j: int| 0 <= i < j < after.len() implies lex_lt(#[trigger] after[i], #[trigger] after[j]) by {
            if i < k && j < k {
            } else if i < k && j == k {
            } else if i < k {
                assert(after[j] == before[j - 1]);
            } else if i == k {
                assert(after[j] == before[j - 1]);
                if j - 1 > k {
                    lemma_lex_trans(s@, before[k as int], before[j - 1]);
                }
            } else {
                assert(after[j] == before[j - 1]);
                assert(after[i] == before[i - 1]);
            }
        }
        assert forall|x: Seq<char>| after.contains(x) <==> (before.contains(x) || x == s@) by {
            if after.contains(x) {
                let i = choose|i: int| 0 <= i < after.len() && after[i] == x;
                if i < k {
                    assert(before[i] == x);
                } else if i > k {
                    assert(before[i - 1] == x);
                }
            }
            if before.contains(x) {
                let i = choose|i: int| 0 <= i < before.len() && before[i] == x;
                if i < k {
                    assert(after[i] == x);
                } else {
                    assert(after[i + 1] == x);
                }
            }
            if x == s@ {
                assert(after[k as int] == x);
            }
        }
    }
}

/// Every file some anchor points at, each once, sorted by path.
pub fn referenced_files(anchors: &[Anchor]) -> (r: Vec<String>)
    ensures
        sorted_strs(strings_of(r@)),
        forall|x: Seq<char>| strings_of(r@).contains(x) <==> all_anchor_files(anchors@).contains(x),
{
    let mut out: Vec<String> = Vec::new();
    for i in 0..anchors.len()
        invariant
            sorted_strs(strings_of(out@)),
            forall|x: Seq<char>| strings_of(out@).contains(x) <==> all_anchor_files(anchors@.take(i as int)).contains(x),
    {
        proof {
            assert(anchors@.take(i + 1).drop_last() =~= anchors@.take(i as int));
            assert(anchors@.take(i + 1).last() == anchors@[i as int]);
        }
        let ghost prev = all_anchor_files(anchors@.take(i as int));
        let ghost mine = anchor_files(anchors@[i as int]);
        let (base, head): (Option<&String>, Option<&String>) = match &anchors[i] {
            Anchor::Global { .. } => (None, None),
            Anchor::File { base, head } => (
                match base {
                    Some(f) => Some(&f.file),
                    None => None,
                },
                match head {
                    Some(f) => Some(&f.file),
                    None => None,
                },
            ),
            Anchor::Span { base, head } => (
                match base {
                    Some(r) => Some(&r.file),
                    None => None,
                },
                match head {
                    Some(r) => Some(&r.file),
                    None => None,
                },
            ),
        };
        proof {
            let bs: Seq<Seq<char>> = match base {
                Some(b) => seq![b@],
                None => Seq::empty(),
            };
            let hs: Seq<Seq<char>> = match head {
                Some(h) => seq![h@],
                None => Seq::empty(),
            };
            assert(mine =~= bs + hs);
        }
        let ghost mid0 = strings_of(out@);
        if let Some(b) = base {
            insert_sorted(&mut out, b);
        }
        if let Some(h) = head {
            insert_sorted(&mut out, h);
        }
        proof {
            assert forall|x: Seq<char>| strings_of(out@).contains(x) <==> (prev + mine).contains(x) by {
                if (prev + mine).contains(x) {
                    let q = choose|q: int| 0 <= q < (prev + mine).len() && (prev + mine)[q] == x;
                    if q < prev.len() {
                        assert(prev[q] == x);
                    } else {
                        assert(mine[q - prev.len()] == x);
                    }
                }
                if prev.contains(x) {
                    let q = choose|q: int| 0 <= q < prev.len() && prev[q] == x;
                    assert((prev + mine)[q] == x);
                }
                if base matches Some(b) && x == b@ {
                    assert((prev + mine)[prev.len() as int] == x);
                }
                if head matches Some(h) && x == h@ {
                    assert((prev + mine)[prev.len() + mine.len() - 1] == x);
                }
            }
        }
    }
    proof {
        assert(anchors@.take(anchors@.len() as int) =~= anchors@);
    }
    out
}

/// Whether the diff touches `path` (as its old or its new path).
pub open spec fn touched_spec(files: Seq<FileDigest>, path: Seq<char>) -> bool {
    exists|i: int| 0 <= i < files.len() && (opt_view(#[trigger] files[i].old_path) == Some(path) || opt_view(files[i].new_path) == Some(path))
}

fn is_touched(files: &[FileDigest], path: &String) -> (r: bool)
    ensures
        r == touched_spec(files@, path@),
{
    for i in 0..files.len()
        invariant
            forall|j: int| 0 <= j < i ==> !(opt_view(#[trigger] files@[j].old_path) == Some(path@) || opt_view(files@[j].new_path) == Some(path@)),
    {
        let hit = match &files[i].old_path {
            Some(p) => same_string(p, path),
            None => false,
        } || match &files[i].new_path {
            Some(p) => same_string(p, path),
            None => false,
        };
        if hit {
            return true;
        }
    }
    false
}

/// The paths of `v` for which `keep` holds, in order.
pub open spec fn kept_paths(v: Seq<Seq<char>>, keep: spec_fn(Seq<char>) -> bool) -> Seq<Seq<char>>
    decreases v.len(),
{
    if v.len() == 0 {
        Seq::empty()
    } else {
        let rest = kept_paths(v.drop_last(), keep);
        if keep(v.last()) {
            rest.push(v.last())
        } else {
            rest
        }
    }
}

/// The referenced files the diff does not touch: these are read at the head
/// and pinned, so that every file a comment refers to is in the bundle.
pub fn untouched_files(referenced: &Vec<String>, files: &[FileDigest]) -> (r: Vec<String>)
    ensures
        strings_of(r@) == kept_paths(strings_of(referenced@), |p: Seq<char>| !touched_spec(files@, p)),
{
    let ghost rv = strings_of(referenced@);
    let mut out: Vec<String> = Vec::new();
    for i in 0..referenced.len()
        invariant
            rv == strings_of(referenced@),
            strings_of(out@) == kept_paths(rv.take(i as int), |p: Seq<char>| !touched_spec(files@, p)),
    {
        proof {
            assert(rv.take(i + 1).drop_last() =~= rv.take(i as int));
            assert(rv.take(i + 1).last() == referenced@[i as int]@);
        }
        if !is_touched(files, &referenced[i]) {
            let ghost before = out@;
            out.push(copy_string(&referenced[i]));
            proof {
                assert(strings_of(out@) =~= strings_of(before).push(referenced@[i as int]@));
            }
        }
    }
    proof {
        assert(rv.take(rv.len() as int) =~= rv);
    }
    out
}

/// Whether the recorded head tree has `path`.
pub open spec fn known_spec(tree: Seq<TreeFile>, path: Seq<char>) -> bool {
    exists|i: int| 0 <= i < tree.len() && (#[trigger] tree[i]).path@ == path
}

fn is_known(tree: &[TreeFile], path: &String) -> (r: bool)
    ensures
        r == known_spec(tree@, path@),
{
    for i in 0..tree.len()
        invariant
            forall|j: int| 0 <= j < i ==> (#[trigger] tree@[j]).path@ != path@,
    {
        if same_string(&tree[i].path, path) {
            return true;
        }
    }
    false
}

/// Of the untouched files, those a revision already recorded does not know:
/// these are read at the head and pinned to it.
pub fn missing_files(untouched: &Vec<String>, manifest: &[TreeFile]) -> (r: Vec<String>)
    ensures
        strings_of(r@) == kept_paths(strings_of(untouched@), |p: Seq<char>| !known_spec(manifest@, p)),
{
    let ghost uv = strings_of(untouched@);
    let mut out: Vec<String> = Vec::new();
    for i in 0..untouched.len()
        invariant
            uv == strings_of(untouched@),
            strings_of(out@) == kept_paths(uv.take(i as int), |p: Seq<char>| !known_spec(manifest@, p)),
    {
        proof {
            assert(uv.take(i + 1).drop_last() =~= uv.take(i as int));
            assert(uv.take(i + 1).last() == untouched@[i as int]@);
        }
        if !is_known(manifest, &untouched[i]) {
            let ghost before = out@;
            out.push(copy_string(&untouched[i]));
            proof {
                assert(strings_of(out@) =~= strings_of(before).push(untouched@[i as int]@));
            }
        }
    }
    proof {
        assert(uv.take(uv.len() as int) =~= uv);
    }
    out
}

pub proof fn lemma_kept_paths(v: Seq<Seq<char>>, keep: spec_fn(Seq<char>) -> bool, x: Seq<char>)
    ensures
        kept_paths(v, keep).contains(x) <==> (v.contains(x) && keep(x)),
    decreases v.len(),
{
    if v.len() > 0 {
        lemma_kept_paths(v.drop_last(), keep, x);
        let rest = kept_paths(v.drop_last(), keep);
        if v.drop_last().contains(x) {
            let q = choose|q: int| 0 <= q < v.drop_last().len() && v.drop_last()[q] == x;
            assert(v[q] == x);
        }
        if v.contains(x) {
            let q = choose|q: int| 0 <= q < v.len() && v[q] == x;
            if q < v.len() - 1 {
                assert(v.drop_last()[q] == x);
            }
        }
        if keep(v.last()) && rest.push(v.last()).contains(x) {
            let q = choose|q: int| 0 <= q < rest.push(v.last()).len() && rest.push(v.last())[q] == x;
            if q < rest.len() {
                assert(rest[q] == x);
            }
        }
        if keep(v.last()) && x == v.last() {
            assert(rest.push(v.last())[rest.len() as int] == x);
        }
        if keep(v.last()) && rest.contains(x) {
            let q = choose|q: int| 0 <= q < rest.len() && rest[q] == x;
            assert(rest.push(v.last())[q] == x);
        }
    }
}

/// Every file a comment refers to is in the bundle: the diff touches it, or
/// the revision's recorded tree knows it, or it is among the files a session
/// reads at the head and pins.
pub proof fn lemma_every_referenced_file_is_kept(
    anchors: Seq<Anchor>,
    referenced: Seq<Seq<char>>,
    files: Seq<FileDigest>,
    manifest: Seq<TreeFile>,
    path: Seq<char>,
)
    requires
        forall|x: Seq<char>| referenced.contains(x) <==> all_anchor_files(anchors).contains(x),
        all_anchor_files(anchors).contains(path),
    ensures
        touched_spec(files, path) || known_spec(manifest, path) || kept_paths(
            kept_paths(referenced, |p: Seq<char>| !touched_spec(files, p)),
            |p: Seq<char>| !known_spec(manifest, p),
        ).contains(path),
{
    let untouched = kept_paths(referenced, |p: Seq<char>| !touched_spec(files, p));
    lemma_kept_paths(referenced, |p: Seq<char>| !touched_spec(files, p), path);
    lemma_kept_paths(untouched, |p: Seq<char>| !known_spec(manifest, p), path);
}

/// The anchors of the log's comments and re-anchorings, in order.
pub open spec fn log_anchors(events: Seq<Event>) -> Seq<Anchor>
    decreases events.len(),
{
    if events.len() == 0 {
        Seq::empty()
    } else {
        let rest = log_anchors(events.drop_last());
        match events.last() {
            Event::Comment { anchor: Some(a), .. } => rest.push(a),
            Event::Reanchor { anchor, .. } => rest.push(anchor),
            _ => rest,
        }
    }
}

pub open spec fn anchor_views(a: Seq<Anchor>) -> Seq<AnchorV> {
    a.map_values(|x: Anchor| x@)
}

proof fn lemma_anchor_files_view(a: Anchor, b: Anchor)
    requires
        a@ == b@,
    ensures
        anchor_files(a) == anchor_files(b),
{
    match a {
        Anchor::Global { .. } => {},
        Anchor::File { base: ab, head: ah } => {
            if let Anchor::File { base: bb, head: bh } = b {
                assert(crate::model::file_ref_view(ab) == crate::model::file_ref_view(bb));
                assert(crate::model::file_ref_view(ah) == crate::model::file_ref_view(bh));
            }
        },
        Anchor::Span { base: ab, head: ah } => {
            if let Anchor::Span { base: bb, head: bh } = b {
                assert(crate::model::line_range_view(ab) == crate::model::line_range_view(bb));
                assert(crate::model::line_range_view(ah) == crate::model::line_range_view(bh));
            }
        },
    }
}

/// Anchors that look the same point at the same files.
pub proof fn lemma_all_anchor_files_view(a: Seq<Anchor>, b: Seq<Anchor>)
    requires
        anchor_views(a) == anchor_views(b),
    ensures
        all_anchor_files(a) == all_anchor_files(b),
    decreases a.len(),
{
    assert(a.len() == anchor_views(a).len() && b.len() == anchor_views(b).len());
    if a.len() > 0 {
        assert forall|k: int| 0 <= k < a.len() - 1 implies #[trigger] anchor_views(a.drop_last())[k] == anchor_views(b.drop_last())[k] by {
            assert(anchor_views(a)[k] == anchor_views(b)[k]);
            assert(anchor_views(a)[k] == a[k]@ && anchor_views(b)[k] == b[k]@);
            assert(a.drop_last()[k] == a[k] && b.drop_last()[k] == b[k]);
            assert(anchor_views(a.drop_last())[k] == a[k]@);
            assert(anchor_views(b.drop_last())[k] == b[k]@);
        }
        assert(anchor_views(a.drop_last()) =~= anchor_views(b.drop_last()));
        lemma_all_anchor_files_view(a.drop_last(), b.drop_last());
        assert(anchor_views(a)[a.len() - 1] == anchor_views(b)[b.len() - 1]);
        lemma_anchor_files_view(a.last(), b.last());
    }
}

/// Adds the anchors of `events` to `out`; `seen` is the log before them.
fn push_anchors(events: &[Event], out: &mut Vec<Anchor>, seen: Ghost<Seq<Event>>)
    requires
        anchor_views(old(out)@) == anchor_views(log_anchors(seen@)),
    ensures
        anchor_views(final(out)@) == anchor_views(log_anchors(seen@ + events@)),
{
    let ghost all = seen@ + events@;
    assert(all.take(seen@.len() as int) =~= seen@);
    for i in 0..events.len()
        invariant
            all == seen@ + events@,
            anchor_views(out@) == anchor_views(log_anchors(all.take((seen@.len() + i) as int))),
    {
        let ghost k = (seen@.len() + i) as int;
        proof {
            assert(all.take(k + 1).drop_last() =~= all.take(k));
            assert(all.take(k + 1).last() == events@[i as int]);
        }
        let ghost before = out@;
        match &events[i] {
            Event::Comment { anchor: Some(a), .. } => {
                out.push(copy_anchor(a));
                assert(anchor_views(out@) =~= anchor_views(before).push(a@));
                assert(anchor_views(log_anchors(all.take(k + 1))) =~= anchor_views(log_anchors(all.take(k))).push(a@));
            },
            Event::Reanchor { anchor, .. } => {
                out.push(copy_anchor(anchor));
                assert(anchor_views(out@) =~= anchor_views(before).push(anchor@));
                assert(anchor_views(log_anchors(all.take(k + 1))) =~= anchor_views(log_anchors(all.take(k))).push(anchor@));
            },
            _ => {},
        }
    }
    assert(all.take((seen@.len() + events@.len()) as int) =~= all);
}

/// The place of the first of `revisions` with `digest`.
pub open spec fn digest_index(revisions: Seq<crate::model::Revision>, digest: Seq<char>) -> Option<int>
    decreases revisions.len(),
{
    if revisions.len() == 0 {
        None
    } else if revisions[0].digest@ == digest {
        Some(0)
    } else {
        match digest_index(revisions.drop_first(), digest) {
            Some(k) => Some(k + 1),
            None => None,
        }
    }
}

proof fn lemma_digest_index(revisions: Seq<crate::model::Revision>, digest: Seq<char>, i: int)
    requires
        0 <= i <= revisions.len(),
        forall|j: int| 0 <= j < i ==> (#[trigger] revisions[j]).digest@ != digest,
    ensures
        i < revisions.len() && revisions[i].digest@ == digest ==> digest_index(revisions, digest) == Some(i),
        i == revisions.len() ==> digest_index(revisions, digest) is None,
    decreases i,
{
    if i > 0 {
        let rest = revisions.drop_first();
        assert forall|j: int| 0 <= j < i - 1 implies (#[trigger] rest[j]).digest@ != digest by {
            assert(rest[j] == revisions[j + 1]);
        }
        lemma_digest_index(rest, digest, i - 1);
    }
}

/// Whether the head tree `tree` (by path and digest) has `path`.
pub open spec fn known_in(tree: Seq<(Seq<char>, Seq<char>)>, path: Seq<char>) -> bool {
    exists|i: int| 0 <= i < tree.len() && (#[trigger] tree[i]).0 == path
}

proof fn lemma_kept_sorted(v: Seq<Seq<char>>, keep: spec_fn(Seq<char>) -> bool)
    requires
        sorted_strs(v),
    ensures
        sorted_strs(kept_paths(v, keep)),
    decreases v.len(),
{
    if v.len() > 0 {
        let pre = v.drop_last();
        assert(sorted_strs(pre)) by {
            assert forall|i: int, j: int| 0 <= i < j < pre.len() implies lex_lt(#[trigger] pre[i], #[trigger] pre[j]) by {
                assert(pre[i] == v[i] && pre[j] == v[j]);
            }
        }
        lemma_kept_sorted(pre, keep);
        let rest = kept_paths(pre, keep);
        if keep(v.last()) {
            let u = rest.push(v.last());
            assert forall|i: int, j: int| 0 <= i < j < u.len() implies lex_lt(#[trigger] u[i], #[trigger] u[j]) by {
                if j == rest.len() {
                    lemma_kept_paths(pre, keep, rest[i]);
                    assert(rest.contains(rest[i]));
                    let q = choose|q: int| 0 <= q < pre.len() && pre[q] == rest[i];
                    assert(v[q] == rest[i]);
                }
            }
        }
    }
}

/// What a session has to read at the head before it can say what goes into
/// the bundle.
#[derive(Debug)]
pub enum Plan {
    /// The diff is recorded already, as revision `revision`: the files
    /// comments refer to that the diff does not touch and that revision does
    /// not know (`paths`) are read, and pinned to it.
    Pin { revision: u128, paths: Vec<String> },
    /// The diff is new: a revision is recorded. With `Changed`, the files
    /// comments refer to that the diff does not touch (`paths`) are read and
    /// pinned; with `Full`, the whole head tree is read.
    Record { paths: Vec<String> },
}

/// Whether `paths` are, sorted and each once, the files some anchor of the
/// log `events` points at for which `keep` holds.
pub open spec fn referenced_where(paths: Seq<Seq<char>>, events: Seq<Event>, keep: spec_fn(Seq<char>) -> bool) -> bool {
    &&& sorted_strs(paths)
    &&& forall|x: Seq<char>| #[trigger] paths.contains(x) <==> (all_anchor_files(log_anchors(events)).contains(x) && keep(x))
}

/// What a session reads at the head: for a diff that `events` record already,
/// the files comments (of `events` and of the session's `new_events`) refer
/// to that the diff does not touch and the revision does not know; for a new
/// one, those the diff does not touch.
pub fn session_plan(events: &[Event], new_events: &[Event], capture: &Capture) -> (r: Plan)
    ensures
        ({
            let revs = revisions_spec(events@);
            let log = events@ + new_events@;
            let untouched = |x: Seq<char>| !touched_spec(capture.files@, x);
            match r {
                Plan::Pin { revision, paths } => {
                    &&& digest_index(revs, capture.diff_digest@) matches Some(i)
                    &&& revision == revs[i].id
                    &&& referenced_where(strings_of(paths@), log, |x: Seq<char>| untouched(x) && !known_in(
                        manifest_spec(tree_view(revs[i].tree@), events@, revs[i].id),
                        x,
                    ))
                },
                Plan::Record { paths } => {
                    &&& digest_index(revs, capture.diff_digest@) is None
                    &&& referenced_where(strings_of(paths@), log, untouched)
                },
            }
        }),
{
    let mut anchors: Vec<Anchor> = Vec::new();
    assert(anchor_views(anchors@) =~= anchor_views(log_anchors(Seq::<Event>::empty())));
    push_anchors(events, &mut anchors, Ghost(Seq::empty()));
    assert(Seq::<Event>::empty() + events@ =~= events@);
    push_anchors(new_events, &mut anchors, Ghost(events@));
    let ghost log = events@ + new_events@;
    proof {
        lemma_all_anchor_files_view(anchors@, log_anchors(log));
    }
    let referenced = referenced_files(anchors.as_slice());
    let untouched = untouched_files(&referenced, capture.files);
    let ghost rv = strings_of(referenced@);
    let ghost keep_u = |x: Seq<char>| !touched_spec(capture.files@, x);
    proof {
        lemma_kept_sorted(rv, keep_u);
        assert forall|x: Seq<char>| #[trigger] strings_of(untouched@).contains(x) <==> (all_anchor_files(log_anchors(log)).contains(x) && keep_u(x)) by {
            lemma_kept_paths(rv, keep_u, x);
        }
    }
    let all = revisions(events);
    let ghost revs = revisions_spec(events@);
    let mut i: usize = 0;
    while i < all.len()
        invariant
            i <= all@.len(),
            all@.map_values(|x: &crate::model::Revision| *x) == revs,
            revs == revisions_spec(events@),
            log == events@ + new_events@,
            keep_u == (|x: Seq<char>| !touched_spec(capture.files@, x)),
            sorted_strs(strings_of(untouched@)),
            forall|x: Seq<char>| #[trigger] strings_of(untouched@).contains(x) <==> (all_anchor_files(log_anchors(log)).contains(x) && keep_u(x)),
            forall|j: int| 0 <= j < i ==> (#[trigger] revs[j]).digest@ != capture.diff_digest@,
        decreases all.len() - i,
    {
        assert(revs[i as int] == *all@[i as int]);
        let dc = crate::text::chars_of(all[i].digest.as_str());
        if crate::text::is_str(dc.as_slice(), capture.diff_digest) {
            let rev = all[i];
            proof {
                lemma_digest_index(revs, capture.diff_digest@, i as int);
            }
            let tree = manifest(events, rev);
            let missing = missing_files(&untouched, tree.as_slice());
            let ghost uv = strings_of(untouched@);
            let ghost keep_k = |x: Seq<char>| !known_spec(tree@, x);
            proof {
                lemma_kept_sorted(uv, keep_k);
                assert forall|x: Seq<char>| #[trigger] strings_of(missing@).contains(x) <==> (all_anchor_files(log_anchors(log)).contains(x) && (keep_u(x) && !known_in(manifest_spec(tree_view(revs[i as int].tree@), events@, revs[i as int].id), x))) by {
                    lemma_kept_paths(uv, keep_k, x);
                    let tv = tree_view(tree@);
                    if known_spec(tree@, x) {
                        let q = choose|q: int| 0 <= q < tree@.len() && (#[trigger] tree@[q]).path@ == x;
                        assert(tv[q].0 == x);
                    }
                    if known_in(tv, x) {
                        let q = choose|q: int| 0 <= q < tv.len() && (#[trigger] tv[q]).0 == x;
                        assert(tree@[q].path@ == x);
                    }
                }
            }
            return Plan::Pin { revision: rev.id, paths: missing };
        }
        i += 1;
    }
    proof {
        lemma_digest_index(revs, capture.diff_digest@, revs.len() as int);
    }
    Plan::Record { paths: untouched }
}

/// The head tree entries of files read: each path with the digest of its
/// bytes.
pub open spec fn read_tree(files: Seq<(Seq<char>, Seq<u8>)>) -> Seq<(Seq<char>, Seq<char>)> {
    files.map_values(|f: (Seq<char>, Seq<u8>)| (f.0, digest_of(f.1)))
}

/// The bytes of files read.
pub open spec fn read_bytes(files: Seq<(Seq<char>, Seq<u8>)>) -> Seq<Seq<u8>> {
    files.map_values(|f: (Seq<char>, Seq<u8>)| f.1)
}

pub open spec fn blobs_view(b: Seq<Vec<u8>>) -> Seq<Seq<u8>> {
    b.map_values(|x: Vec<u8>| x@)
}

pub open spec fn file_digests_view(f: Seq<FileDigest>) -> Seq<(Option<Seq<char>>, Option<Seq<char>>, Option<Seq<char>>, Option<Seq<char>>)> {
    f.map_values(|d: FileDigest| digests_view(d))
}

/// The `Pin` event that adds the files read to revision `revision`.
pub open spec fn is_pin(e: Event, revision: u128, read: Seq<(Seq<char>, Seq<u8>)>) -> bool {
    &&& e matches Event::Pin { revision: r, files }
    &&& r == revision
    &&& tree_view(files@) == read_tree(read)
}

/// The `Revision` event a session records for a new diff.
pub open spec fn is_recorded(
    e: Event,
    id: u128,
    created_at: Seq<char>,
    capture: Capture,
    mode: SnapshotMode,
    tree: Seq<(Seq<char>, Seq<char>)>,
) -> bool {
    &&& e matches Event::Revision(r)
    &&& r.id == id
    &&& r.created_at@ == created_at
    &&& r.digest@ == capture.diff_digest@
    &&& r.source == capture.source
    &&& r.snapshot_mode == mode
    &&& file_digests_view(r.files@) == file_digests_view(capture.files@)
    &&& tree_view(r.tree@) == tree
}

fn copy_file_digests(files: &[FileDigest]) -> (r: Vec<FileDigest>)
    ensures
        file_digests_view(r@) == file_digests_view(files@),
{
    let mut out: Vec<FileDigest> = Vec::new();
    for i in 0..files.len()
        invariant
            file_digests_view(out@) == file_digests_view(files@.take(i as int)),
    {
        let f = &files[i];
        let ghost before = out@;
        out.push(FileDigest {
            old_path: copy_opt(&f.old_path),
            new_path: copy_opt(&f.new_path),
            old: copy_opt(&f.old),
            new: copy_opt(&f.new),
        });
        assert(file_digests_view(out@) =~= file_digests_view(before).push(digests_view(*f)));
        assert(files@.take(i + 1) =~= files@.take(i as int).push(*f));
        assert(file_digests_view(files@.take(i + 1)) =~= file_digests_view(files@.take(i as int)).push(digests_view(*f)));
    }
    assert(files@.take(files@.len() as int) =~= files@);
    out
}

/// Adds the files of `entries` to a head tree.
fn add_tree(entries: &[(String, Vec<u8>)], tree: &mut Vec<TreeFile>)
    ensures
        tree_view(final(tree)@) == tree_view(old(tree)@) + read_tree(entries_view(entries@)),
{
    let ghost start = tree_view(tree@);
    for i in 0..entries.len()
        invariant
            tree_view(tree@) == start + read_tree(entries_view(entries@.take(i as int))),
    {
        let t = tree_file(entries[i].0.as_str(), entries[i].1.as_slice());
        let ghost before = tree@;
        tree.push(t);
        assert(tree_view(tree@) =~= tree_view(before).push((t.path@, t.digest@)));
        assert(entries@.take(i + 1) =~= entries@.take(i as int).push(entries@[i as int]));
        assert(read_tree(entries_view(entries@.take(i + 1))) =~= read_tree(entries_view(entries@.take(i as int))).push((t.path@, t.digest@)));
    }
    assert(entries@.take(entries@.len() as int) =~= entries@);
}

/// Adds copies of the bytes of `entries` to `blobs`.
fn add_bytes(entries: &[(String, Vec<u8>)], blobs: &mut Vec<Vec<u8>>)
    ensures
        blobs_view(final(blobs)@) == blobs_view(old(blobs)@) + read_bytes(entries_view(entries@)),
{
    let ghost start = blobs_view(blobs@);
    for i in 0..entries.len()
        invariant
            blobs_view(blobs@) == start + read_bytes(entries_view(entries@.take(i as int))),
    {
        let b = copy_bytes(entries[i].1.as_slice());
        let ghost before = blobs@;
        blobs.push(b);
        assert(blobs_view(blobs@) =~= blobs_view(before).push(b@));
        assert(entries@.take(i + 1) =~= entries@.take(i as int).push(entries@[i as int]));
        assert(read_bytes(entries_view(entries@.take(i + 1))) =~= read_bytes(entries_view(entries@.take(i as int))).push(b@));
    }
    assert(entries@.take(entries@.len() as int) =~= entries@);
}

/// Adds the files read to a head tree, and their bytes to `blobs`.
fn add_read(read: Vec<(String, Vec<u8>)>, tree: &mut Vec<TreeFile>, blobs: &mut Vec<Vec<u8>>)
    ensures
        tree_view(final(tree)@) == tree_view(old(tree)@) + read_tree(entries_view(read@)),
        blobs_view(final(blobs)@) == blobs_view(old(blobs)@) + read_bytes(entries_view(read@)),
{
    let ghost given = read@;
    let ghost t0 = tree_view(tree@);
    let ghost b0 = blobs_view(blobs@);
    assert(given.take(0) =~= Seq::<(String, Vec<u8>)>::empty());
    for entry in it: read
        invariant
            it.seq() == given,
            tree_view(tree@) == t0 + read_tree(entries_view(given.take(it.index() as int))),
            blobs_view(blobs@) == b0 + read_bytes(entries_view(given.take(it.index() as int))),
    {
        let ghost k = it.index() as int;
        let (path, bytes) = entry;
        let t = tree_file(path.as_str(), bytes.as_slice());
        let ghost tb = tree@;
        let ghost bb = blobs@;
        tree.push(t);
        blobs.push(bytes);
        proof {
            assert(given.take(k + 1) =~= given.take(k).push(given[k]));
            assert(tree_view(tree@) =~= tree_view(tb).push((t.path@, t.digest@)));
            assert(blobs_view(blobs@) =~= blobs_view(bb).push(given[k].1@));
            assert(read_tree(entries_view(given.take(k + 1))) =~= read_tree(entries_view(given.take(k))).push((t.path@, t.digest@)));
            assert(read_bytes(entries_view(given.take(k + 1))) =~= read_bytes(entries_view(given.take(k))).push(given[k].1@));
        }
    }
    assert(given.take(given.len() as int) =~= given);
}

/// Where a new revision goes in a session's events: right after the `Meta`
/// event when the session makes the review, else first.
pub open spec fn revision_place(events: Seq<Event>) -> int {
    if events.len() > 0 && events[0] is Meta {
        1
    } else {
        0
    }
}

/// What a session adds, once the files its plan asks for have been read at
/// the head (`read`: each path with its bytes; for a new revision with `Full`,
/// the whole head tree). For a recorded diff: a `Pin` event with the files
/// read, if any, and their bytes. For a new one: a `Revision` event (`id` and
/// `created_at` are its ULID and time), placed by `revision_place`, whose
/// tree is the files the diff touches at the head and those read (with `Full`,
/// only those read); and the diff, with the bytes of the tree and of the base
/// files.
pub fn session_additions(
    plan: Plan,
    capture: Capture,
    mode: SnapshotMode,
    read: Vec<(String, Vec<u8>)>,
    id: u128,
    created_at: String,
    new_events: &mut Vec<Event>,
) -> (r: Additions)
    ensures
        ({
            let rd = entries_view(read@);
            let nf = entries_view(capture.new_files.entries@);
            let bf = entries_view(capture.base_files.entries@);
            match plan {
                Plan::Pin { revision, .. } => {
                    &&& r.diff is None
                    &&& blobs_view(r.blobs@) == read_bytes(rd)
                    &&& if rd.len() > 0 {
                        &&& final(new_events)@.len() == old(new_events)@.len() + 1
                        &&& final(new_events)@.drop_last() == old(new_events)@
                        &&& is_pin(final(new_events)@.last(), revision, rd)
                    } else {
                        final(new_events)@ == old(new_events)@
                    }
                },
                Plan::Record { .. } => {
                    let at = revision_place(old(new_events)@);
                    let full = mode == SnapshotMode::Full;
                    let tree = if full {
                        read_tree(rd)
                    } else {
                        read_tree(nf) + read_tree(rd)
                    };
                    &&& final(new_events)@.len() == old(new_events)@.len() + 1
                    &&& final(new_events)@.remove(at) == old(new_events)@
                    &&& is_recorded(final(new_events)@[at], id, created_at@, capture, mode, tree)
                    &&& r.diff matches Some((d, t)) && d@ == capture.diff_digest@ && t@ == capture.diff_text@
                    &&& blobs_view(r.blobs@) == (if full {
                        read_bytes(rd)
                    } else {
                        read_bytes(nf) + read_bytes(rd)
                    }) + read_bytes(bf)
                },
            }
        }),
{
    let ghost rd = entries_view(read@);
    let mut tree: Vec<TreeFile> = Vec::new();
    let mut blobs: Vec<Vec<u8>> = Vec::new();
    match plan {
        Plan::Pin { revision, .. } => {
            let any = read.len() > 0;
            add_read(read, &mut tree, &mut blobs);
            assert(tree_view(tree@) =~= read_tree(rd));
            assert(blobs_view(blobs@) =~= read_bytes(rd));
            if any {
                new_events.push(Event::Pin { revision, files: tree });
            }
            Additions { diff: None, blobs }
        },
        Plan::Record { .. } => {
            let full = match mode {
                SnapshotMode::Full => true,
                SnapshotMode::Changed => false,
            };
            if !full {
                add_tree(capture.new_files.entries.as_slice(), &mut tree);
                add_bytes(capture.new_files.entries.as_slice(), &mut blobs);
            }
            add_read(read, &mut tree, &mut blobs);
            add_bytes(capture.base_files.entries.as_slice(), &mut blobs);
            assert(Seq::<(Seq<char>, Seq<char>)>::empty() + read_tree(rd) =~= read_tree(rd));
            assert(Seq::<Seq<u8>>::empty() + read_bytes(rd) =~= read_bytes(rd));
            assert(Seq::<(Seq<char>, Seq<char>)>::empty() + read_tree(entries_view(capture.new_files.entries@)) =~= read_tree(entries_view(capture.new_files.entries@)));
            assert(Seq::<Seq<u8>>::empty() + read_bytes(entries_view(capture.new_files.entries@)) =~= read_bytes(entries_view(capture.new_files.entries@)));
            let at: usize = if new_events.len() > 0 && matches!(new_events[0], Event::Meta { .. }) {
                1
            } else {
                0
            };
            let digest_text = capture.diff_digest.to_string();
            let revision = Revision {
                id,
                created_at,
                digest: digest_text,
                source: capture.source,
                snapshot_mode: mode,
                files: copy_file_digests(capture.files),
                tree,
            };
            let ghost before = new_events@;
            new_events.insert(at, Event::Revision(revision));
            assert(new_events@.remove(at as int) =~= before);
            Additions {
                diff: Some((capture.diff_digest.to_string(), capture.diff_text.to_string())),
                blobs,
            }
        },
    }
}

} // verus!
