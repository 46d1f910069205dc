//! The file provider's logic: a plain directory (no version control) is read
//! as a [`Tree`] -- `path -> bytes`, `/`-separated, relative to the
//! directory, sorted by path -- and compared with the snapshot the bundle
//! last recorded.

use crate::digest::{digest, digest_of, utf8_text};
use crate::model::FileDigest;
use crate::text::{chars_of, copy_string, opt_view, push_str};
use vstd::prelude::*;

verus! {

/// The files of a directory: (path, bytes), sorted by path, each path once.
pub struct Tree {
    pub entries: Vec<(String, Vec<u8>)>,
}

/// Whether `a` sorts before `b`, character by character (the order of
/// their UTF-8 bytes).
pub open spec fn lex_lt(a: Seq<char>, b: Seq<char>) -> bool
    decreases a.len(),
{
    if a.len() == 0 {
        b.len() > 0
    } else if b.len() == 0 {
        false
    } else if a[0] == b[0] {
        lex_lt(a.drop_first(), b.drop_first())
    } else {
        (a[0] as int) < (b[0] as int)
    }
}

/// Whether the paths of `entries` are in strictly increasing order.
pub open spec fn sorted_paths(entries: Seq<(String, Vec<u8>)>) -> bool {
    forall|i: int, j: int| 0 <= i < j < entries.len() ==> lex_lt(#[trigger] entries[i].0@, #[trigger] entries[j].0@)
}

impl Tree {
    pub open spec fn wf(&self) -> bool {
        sorted_paths(self.entries@)
    }
}

/// The text a tree's digest is taken of: for each file, its path, a NUL,
/// the digest of its bytes and a newline.
pub open spec fn manifest(entries: Seq<(String, Vec<u8>)>) -> Seq<char>
    decreases entries.len(),
{
    if entries.len() == 0 {
        Seq::empty()
    } else {
        manifest(entries.drop_last()) + entries.last().0@ + seq!['\0'] + digest_of(entries.last().1@) + seq!['\n']
    }
}

/// A digest identifying a whole tree (its paths and every file's content).
pub fn tree_digest(tree: &Tree) -> (r: String)
    ensures
        r@ == digest_of(vstd::utf8::encode_utf8(manifest(tree.entries@))),
{
    let mut text = String::new();
    for i in 0..tree.entries.len()
        invariant
            text@ == manifest(tree.entries@.take(i as int)),
    {
        proof {
            assert(tree.entries@.take(i + 1).drop_last() =~= tree.entries@.take(i as int));
            assert(tree.entries@.take(i + 1).last() == tree.entries@[i as int]);
        }
        push_str(&mut text, tree.entries[i].0.as_str());
        crate::text::push_char(&mut text, '\0');
        let d = digest(tree.entries[i].1.as_slice());
        push_str(&mut text, d.as_str());
        crate::text::push_char(&mut text, '\n');
    }
    proof {
        assert(tree.entries@.take(tree.entries@.len() as int) =~= tree.entries@);
    }
    digest(text.as_str().as_bytes())
}

/// How far a NUL byte is looked for.
pub const BINARY_PROBE: usize = 8000;

/// Git's own heuristic: a NUL byte in the first 8000 bytes, or text that
/// is not valid UTF-8 (which the diff and annotation parsers could not
/// carry).
pub open spec fn binary_spec(bytes: Seq<u8>) -> bool {
    (exists|i: int| 0 <= i < bytes.len() && i < BINARY_PROBE && #[trigger] bytes[i] == 0)
        || !vstd::utf8::valid_utf8(bytes)
}

pub fn is_binary(bytes: &[u8]) -> (r: bool)
    ensures
        r == binary_spec(bytes@),
{
    let n = if bytes.len() < BINARY_PROBE {
        bytes.len()
    } else {
        BINARY_PROBE
    };
    for i in 0..n
        invariant
            n <= bytes@.len(),
            n <= BINARY_PROBE,
            forall|j: int| 0 <= j < i ==> bytes@[j] != 0,
    {
        if bytes[i] == 0 {
            return true;
        }
    }
    crate::digest::utf8_text(bytes).is_none()
}


/// The bytes of the last of `entries` at path `p`.
pub open spec fn last_for(entries: Seq<(Seq<char>, Seq<u8>)>, p: Seq<char>) -> Option<Seq<u8>>
    decreases entries.len(),
{
    if entries.len() == 0 {
        None
    } else if entries.last().0 == p {
        Some(entries.last().1)
    } else {
        last_for(entries.drop_last(), p)
    }
}

// ---- building a tree -----------------------------------------------------------

/// `a` and `b` differ, so one sorts before the other.
pub proof fn lemma_lex_total(a: Seq<char>, b: Seq<char>)
    ensures
        a == b || lex_lt(a, b) || lex_lt(b, a),
        !(lex_lt(a, b) && lex_lt(b, a)),
        !lex_lt(a, a),
    decreases a.len(),
{
    if a.len() > 0 && b.len() > 0 && a[0] == b[0] {
        lemma_lex_total(a.drop_first(), b.drop_first());
        if a.drop_first() == b.drop_first() {
            assert(a =~= seq![a[0]] + a.drop_first());
            assert(b =~= seq![b[0]] + b.drop_first());
        }
    }
    if a.len() > 0 {
        lemma_lex_total(a.drop_first(), a.drop_first());
    }
    if a.len() == 0 && b.len() == 0 {
        assert(a =~= b);
    }
}

pub proof fn lemma_lex_trans(a: Seq<char>, b: Seq<char>, c: Seq<char>)
    requires
        lex_lt(a, b),
        lex_lt(b, c),
    ensures
        lex_lt(a, c),
    decreases a.len(),
{
    if a.len() > 0 && b.len() > 0 && c.len() > 0 && a[0] == b[0] && b[0] == c[0] {
        lemma_lex_trans(a.drop_first(), b.drop_first(), c.drop_first());
    }
}

/// Whether `a` sorts before `b`.
pub fn lex_less(a: &str, b: &str) -> (r: bool)
    ensures
        r == lex_lt(a@, b@),
{
    let x = chars_of(a);
    let y = chars_of(b);
    let mut i: usize = 0;
    proof {
        assert(a@.skip(0) =~= a@);
        assert(b@.skip(0) =~= b@);
    }
    while i < x.len() && i < y.len() && x[i] == y[i]
        invariant
            x@ == a@,
            y@ == b@,
            i <= x@.len(),
            i <= y@.len(),
            lex_lt(a@, b@) == lex_lt(a@.skip(i as int), b@.skip(i as int)),
        decreases x@.len() - i,
    {
        proof {
            assert(a@.skip(i as int).drop_first() =~= a@.skip(i + 1));
            assert(b@.skip(i as int).drop_first() =~= b@.skip(i + 1));
        }
        i = i + 1;
    }
    if i == x.len() {
        i < y.len()
    } else if i == y.len() {
        false
    } else {
        proof {
            assert(a@.skip(i as int)[0] == a@[i as int]);
            assert(b@.skip(i as int)[0] == b@[i as int]);
        }
        x[i] < y[i]
    }
}

impl Tree {
    /// An empty tree.
    pub fn new() -> (r: Tree)
        ensures
            r.wf(),
            r.entries@.len() == 0,
    {
        Tree { entries: Vec::new() }
    }

    /// The bytes at `path`, if the tree has it.
    pub open spec fn get_spec(&self, path: Seq<char>) -> Option<Seq<u8>> {
        if exists|i: int| 0 <= i < self.entries@.len() && #[trigger] self.entries@[i].0@ == path {
            let i = choose|i: int| 0 <= i < self.entries@.len() && #[trigger] self.entries@[i].0@ == path;
            Some(self.entries@[i].1@)
        } else {
            None
        }
    }

    /// Puts `bytes` at `path`, in its place by path; what was there is
    /// replaced.
    pub fn insert(&mut self, path: String, bytes: Vec<u8>)
        requires
            old(self).wf(),
        ensures
            final(self).wf(),
            final(self).get_spec(path@) == Some(bytes@),
            forall|p: Seq<char>| p != path@ ==> #[trigger] final(self).get_spec(p) == old(self).get_spec(p),
    {
        let ghost pv = path@;
        let ghost bv = bytes@;
        let mut k: usize = 0;
        while k < self.entries.len() && lex_less(self.entries[k].0.as_str(), path.as_str())
            invariant
                k <= self.entries@.len(),
                self.wf(),
                *self == *old(self),
                path@ == pv,
                bytes@ == bv,
                forall|j: int| 0 <= j < k ==> lex_lt(#[trigger] self.entries@[j].0@, pv),
            decreases self.entries@.len() - k,
        {
            k = k + 1;
        }
        let ghost before = self.entries@;
        proof {
            assert forall|j: int| k <= j < before.len() implies !lex_lt(#[trigger] before[j].0@, pv) by {
                if j > k {
                    if lex_lt(before[j].0@, pv) {
                        lemma_lex_trans(before[k as int].0@, before[j].0@, pv);
                    }
                }
            }
        }
        if k < self.entries.len() && crate::text::same_string(&self.entries[k].0, &path) {
            self.entries.set(k, (path, bytes));
            proof {
                assert forall|i: int, j: int| 0 <= i < j < self.entries@.len() implies lex_lt(
                    #[trigger] self.entries@[i].0@,
                    #[trigger] self.entries@[j].0@,
                ) by {
                    assert(before[i].0@ == self.entries@[i].0@);
                    assert(before[j].0@ == self.entries@[j].0@);
                }
                assert(self.entries@[k as int].0@ == pv);
                assert forall|p: Seq<char>| p != pv implies #[trigger] self.get_spec(p) == old(self).get_spec(p) by {
                    if exists|i: int| 0 <= i < self.entries@.len() && #[trigger] self.entries@[i].0@ == p {
                        let i = choose|i: int| 0 <= i < self.entries@.len() && #[trigger] self.entries@[i].0@ == p;
                        assert(i != k);
                        assert(before[i] == self.entries@[i]);
                    }
                    if exists|i: int| 0 <= i < before.len() && #[trigger] before[i].0@ == p {
                        let i = choose|i: int| 0 <= i < before.len() && #[trigger] before[i].0@ == p;
                        assert(i != k);
                        assert(before[i] == self.entries@[i]);
                    }
                    lemma_unique_path(self.entries@, p);
                    lemma_unique_path(before, p);
                }
                lemma_unique_path(self.entries@, pv);
            }
        } else {
            proof {
                if k < before.len() {
                    lemma_lex_total(before[k as int].0@, pv);
                }
            }
            self.entries.insert(k, (path, bytes));
            proof {
                assert forall|i: int, j: int| 0 <= i < j < self.entries@.len() implies lex_lt(
                    #[trigger] self.entries@[i].0@,
                    #[trigger] self.entries@[j].0@,
                ) by {
                    if i < k && j < k {
                        assert(self.entries@[j] == before[j]);
                        assert(self.entries@[i] == before[i]);
                    } else if i < k && j == k {
                    } else if i < k && j > k {
                        assert(self.entries@[j] == before[j - 1]);
                        assert(before[i].0@ == self.entries@[i].0@);
                    } else if i == k {
                        assert(self.entries@[j] == before[j - 1]);
                        if j - 1 > k {
                            lemma_lex_trans(pv, before[k as int].0@, before[j - 1].0@);
                        }
                    } else {
                        assert(self.entries@[j] == before[j - 1]);
                        assert(self.entries@[i] == before[i - 1]);
                    }
                }
                assert(self.entries@[k as int].0@ == pv);
                lemma_unique_path(self.entries@, pv);
                assert forall|p: Seq<char>| p != pv implies #[trigger] self.get_spec(p) == old(self).get_spec(p) by {
                    lemma_unique_path(self.entries@, p);
                    lemma_unique_path(before, p);
                    if exists|i: int| 0 <= i < self.entries@.len() && #[trigger] self.entries@[i].0@ == p {
                        let i = choose|i: int| 0 <= i < self.entries@.len() && #[trigger] self.entries@[i].0@ == p;
                        assert(i != k);
                        if i < k {
                            assert(before[i] == self.entries@[i]);
                        } else {
                            assert(before[i - 1] == self.entries@[i]);
                        }
                    }
                    if exists|i: int| 0 <= i < before.len() && #[trigger] before[i].0@ == p {
                        let i = choose|i: int| 0 <= i < before.len() && #[trigger] before[i].0@ == p;
                        if i < k {
                            assert(before[i] == self.entries@[i]);
                        } else {
                            assert(before[i] == self.entries@[i + 1]);
                        }
                    }
                }
            }
        }
    }

    /// The tree of `entries`, by path; where a path comes twice, the later
    /// entry wins.
    pub fn from_entries(entries: Vec<(String, Vec<u8>)>) -> (r: Tree)
        ensures
            r.wf(),
            forall|p: Seq<char>| #[trigger] r.get_spec(p) == last_for(crate::digest::entries_view(entries@), p),
    {
        let mut t = Tree::new();
        let ghost ev = crate::digest::entries_view(entries@);
        proof {
            assert forall|p: Seq<char>| #[trigger] t.get_spec(p) == last_for(ev.take(0), p) by {}
        }
        for i in 0..entries.len()
            invariant
                t.wf(),
                ev == crate::digest::entries_view(entries@),
                forall|p: Seq<char>| #[trigger] t.get_spec(p) == last_for(ev.take(i as int), p),
        {
            proof {
                assert(ev.take(i + 1).drop_last() =~= ev.take(i as int));
                assert(ev.take(i + 1).last() == ev[i as int]);
            }
            t.insert(copy_string(&entries[i].0), crate::bundle::copy_bytes(entries[i].1.as_slice()));
        }
        proof {
            assert(ev.take(ev.len() as int) =~= ev);
        }
        t
    }
}

/// In a sorted tree each path is at one place at most.
pub proof fn lemma_unique_path(entries: Seq<(String, Vec<u8>)>, p: Seq<char>)
    requires
        sorted_paths(entries),
    ensures
        forall|i: int, j: int| 0 <= i < entries.len() && 0 <= j < entries.len() && #[trigger] entries[i].0@ == p
            && #[trigger] entries[j].0@ == p ==> i == j,
{
    assert forall|i: int, j: int| 0 <= i < entries.len() && 0 <= j < entries.len() && #[trigger] entries[i].0@ == p
        && #[trigger] entries[j].0@ == p implies i == j by {
        if i < j {
            lemma_lex_total(p, p);
        } else if j < i {
            lemma_lex_total(p, p);
        }
    }
}


// ---- the diff between two trees ----------------------------------------------------

/// One path of either tree, with its bytes on each side (`None`: absent).
pub type PathPair = (Seq<char>, Option<Seq<u8>>, Option<Seq<u8>>);

/// The paths of `old` and `new` in order, each with its bytes on both sides:
/// the two sorted lists taken together, a path in both once.
pub open spec fn merged(old: Seq<(Seq<char>, Seq<u8>)>, new: Seq<(Seq<char>, Seq<u8>)>) -> Seq<PathPair>
    decreases old.len() + new.len(),
{
    if old.len() == 0 && new.len() == 0 {
        Seq::empty()
    } else if new.len() == 0 || (old.len() > 0 && lex_lt(old[0].0, new[0].0)) {
        seq![(old[0].0, Some(old[0].1), None::<Seq<u8>>)] + merged(old.drop_first(), new)
    } else if old.len() == 0 || lex_lt(new[0].0, old[0].0) {
        seq![(new[0].0, None::<Seq<u8>>, Some(new[0].1))] + merged(old, new.drop_first())
    } else {
        seq![(old[0].0, Some(old[0].1), Some(new[0].1))] + merged(old.drop_first(), new.drop_first())
    }
}

/// `similar::TextDiff::from_lines(old, new)` written as a unified diff with
/// three lines of context under the header `--- old_name` / `+++ new_name`.
pub uninterp spec fn unified_of(old: Seq<char>, new: Seq<char>, old_name: Seq<char>, new_name: Seq<char>) -> Seq<char>;

/// The unified diff of two texts, as `similar` writes it (three lines of
/// context, with the given header names).
#[verifier::external_body]
fn unified_text(old: &str, new: &str, old_name: &str, new_name: &str) -> (r: String)
    ensures
        r@ == unified_of(old@, new@, old_name@, new_name@),
{
    similar::TextDiff::from_lines(old, new).unified_diff().context_radius(3).header(old_name, new_name).to_string()
}

/// The text of one side's bytes (empty where there are none, or they are
/// not UTF-8).
pub open spec fn side_text(b: Option<Seq<u8>>) -> Seq<char> {
    match b {
        Some(x) => if vstd::utf8::valid_utf8(x) {
            vstd::utf8::decode_utf8(x)
        } else {
            Seq::empty()
        },
        None => Seq::empty(),
    }
}

/// Whether one side's bytes are binary.
pub open spec fn side_binary(b: Option<Seq<u8>>) -> bool {
    match b {
        Some(x) => binary_spec(x),
        None => false,
    }
}

/// The part of the diff for one path whose bytes differ: a git header, a
/// mode line for an added or deleted file, then a `Binary files ... differ`
/// line, or the unified diff of the texts (nothing if both are empty).
pub open spec fn section(p: Seq<char>, before: Option<Seq<u8>>, after: Option<Seq<u8>>) -> Seq<char> {
    let old_name = if before is Some { "a/"@ + p } else { "/dev/null"@ };
    let new_name = if after is Some { "b/"@ + p } else { "/dev/null"@ };
    section_head(p, before is Some, after is Some) + section_body(old_name, new_name, before, after)
}

/// The git header of a section, and the mode line of an added or deleted
/// file.
pub open spec fn section_head(p: Seq<char>, has_before: bool, has_after: bool) -> Seq<char> {
    let mode = if !has_before && has_after {
        "new file mode 100644\n"@
    } else if has_before && !has_after {
        "deleted file mode 100644\n"@
    } else {
        Seq::empty()
    };
    "diff --git "@ + ("a/"@ + p) + " "@ + ("b/"@ + p) + "\n"@ + mode
}

/// What a section says of the contents: binary, or the texts' unified diff
/// (nothing if both texts are empty).
pub open spec fn section_body(old_name: Seq<char>, new_name: Seq<char>, before: Option<Seq<u8>>, after: Option<Seq<u8>>) -> Seq<char> {
    if side_binary(before) || side_binary(after) {
        "Binary files "@ + old_name + " and "@ + new_name + " differ\n"@
    } else if side_text(before).len() > 0 || side_text(after).len() > 0 {
        unified_of(side_text(before), side_text(after), old_name, new_name)
    } else {
        Seq::empty()
    }
}

/// The diff text of the paths of `items` whose bytes differ, in order.
pub open spec fn diff_text(items: Seq<PathPair>) -> Seq<char>
    decreases items.len(),
{
    if items.len() == 0 {
        Seq::empty()
    } else {
        let l = items.last();
        diff_text(items.drop_last()) + if l.1 == l.2 {
            Seq::empty()
        } else {
            section(l.0, l.1, l.2)
        }
    }
}

/// A file's digests as texts: (old path, new path, old digest, new digest).
pub open spec fn digests_view(f: FileDigest) -> (Option<Seq<char>>, Option<Seq<char>>, Option<Seq<char>>, Option<Seq<char>>) {
    (opt_view(f.old_path), opt_view(f.new_path), opt_view(f.old), opt_view(f.new))
}

pub open spec fn opt_digest(b: Option<Seq<u8>>) -> Option<Seq<char>> {
    match b {
        Some(x) => Some(digest_of(x)),
        None => None,
    }
}

/// The digests of the paths of `items` whose bytes differ, in order.
pub open spec fn touched(items: Seq<PathPair>) -> Seq<(Option<Seq<char>>, Option<Seq<char>>, Option<Seq<char>>, Option<Seq<char>>)>
    decreases items.len(),
{
    if items.len() == 0 {
        Seq::empty()
    } else {
        let l = items.last();
        let rest = touched(items.drop_last());
        if l.1 == l.2 {
            rest
        } else {
            rest.push((
                if l.1 is Some { Some(l.0) } else { None },
                if l.2 is Some { Some(l.0) } else { None },
                opt_digest(l.1),
                opt_digest(l.2),
            ))
        }
    }
}

fn same_bytes(x: &[u8], y: &[u8]) -> (r: bool)
    ensures
        r == (x@ == y@),
{
    if x.len() != y.len() {
        proof {
            assert(x@.len() != y@.len());
        }
        return false;
    }
    for i in 0..x.len()
        invariant
            x@.len() == y@.len(),
            forall|j: int| 0 <= j < i ==> x@[j] == y@[j],
    {
        if x[i] != y[i] {
            proof {
                assert(x@[i as int] != y@[i as int]);
            }
            return false;
        }
    }
    proof {
        assert(x@ =~= y@);
    }
    true
}

fn opt_bytes_eq(a: Option<&Vec<u8>>, b: Option<&Vec<u8>>) -> (r: bool)
    ensures
        r == (match a {
            Some(x) => Some(x@),
            None => None::<Seq<u8>>,
        } == match b {
            Some(x) => Some(x@),
            None => None::<Seq<u8>>,
        }),
{
    match (a, b) {
        (Some(x), Some(y)) => same_bytes(x.as_slice(), y.as_slice()),
        (None, None) => true,
        _ => false,
    }
}

fn text_or_empty(b: Option<&Vec<u8>>) -> (r: &str)
    ensures
        r@ == side_text(match b {
            Some(x) => Some(x@),
            None => None,
        }),
{
    match b {
        Some(x) => match utf8_text(x.as_slice()) {
            Some(t) => t,
            None => {
                proof {
                    reveal_strlit("");
                }
                ""
            },
        },
        None => {
            proof {
                reveal_strlit("");
            }
            ""
        },
    }
}

fn head_text(p: &str, has_before: bool, has_after: bool) -> (r: String)
    ensures
        r@ == section_head(p@, has_before, has_after),
{
    let mut out = "diff --git a/".to_owned();
    push_str(&mut out, p);
    push_str(&mut out, " b/");
    push_str(&mut out, p);
    push_str(&mut out, "\n");
    let ghost head = out@;
    proof {
        reveal_strlit("diff --git a/");
        reveal_strlit("diff --git ");
        reveal_strlit("a/");
        reveal_strlit(" b/");
        reveal_strlit(" ");
        reveal_strlit("b/");
        assert(head =~= "diff --git "@ + ("a/"@ + p@) + " "@ + ("b/"@ + p@) + "\n"@);
    }
    if !has_before && has_after {
        push_str(&mut out, "new file mode 100644\n");
    } else if has_before && !has_after {
        push_str(&mut out, "deleted file mode 100644\n");
    } else {
        proof {
            assert(out@ =~= head + Seq::<char>::empty());
        }
    }
    out
}

fn body_text(old_name: &str, new_name: &str, before: Option<&Vec<u8>>, after: Option<&Vec<u8>>) -> (r: String)
    ensures
        r@ == section_body(old_name@, new_name@, match before {
            Some(x) => Some(x@),
            None => None,
        }, match after {
            Some(x) => Some(x@),
            None => None,
        }),
{
    let binary = match before {
        Some(x) => is_binary(x.as_slice()),
        None => false,
    } || match after {
        Some(x) => is_binary(x.as_slice()),
        None => false,
    };
    if binary {
        let mut out = "Binary files ".to_owned();
        push_str(&mut out, old_name);
        push_str(&mut out, " and ");
        push_str(&mut out, new_name);
        push_str(&mut out, " differ\n");
        out
    } else {
        let old_text = text_or_empty(before);
        let new_text = text_or_empty(after);
        if !old_text.is_empty() || !new_text.is_empty() {
            unified_text(old_text, new_text, old_name, new_name)
        } else {
            String::new()
        }
    }
}

fn section_text(p: &str, before: Option<&Vec<u8>>, after: Option<&Vec<u8>>) -> (r: String)
    ensures
        r@ == section(p@, match before {
            Some(x) => Some(x@),
            None => None,
        }, match after {
            Some(x) => Some(x@),
            None => None,
        }),
{
    let mut out = head_text(p, before.is_some(), after.is_some());
    let mut a = "a/".to_owned();
    push_str(&mut a, p);
    let mut b = "b/".to_owned();
    push_str(&mut b, p);
    let old_name: &str = if before.is_some() { a.as_str() } else { "/dev/null" };
    let new_name: &str = if after.is_some() { b.as_str() } else { "/dev/null" };
    let body = body_text(old_name, new_name, before, after);
    push_str(&mut out, body.as_str());
    out
}

/// The unified diff turning `old` into `new`, plus the digests of every file
/// it touches. Files with the same bytes on both sides are left out. Binary
/// files appear as a `Binary files ... differ` entry only, so they can carry
/// file-level comments.
pub fn diff_trees(old: &Tree, new: &Tree) -> (r: (String, Vec<FileDigest>))
    ensures
        r.0@ == diff_text(merged(crate::digest::entries_view(old.entries@), crate::digest::entries_view(new.entries@))),
        r.1@.map_values(|f: FileDigest| digests_view(f)) == touched(
            merged(crate::digest::entries_view(old.entries@), crate::digest::entries_view(new.entries@)),
        ),
{
    let ghost ov = crate::digest::entries_view(old.entries@);
    let ghost nv = crate::digest::entries_view(new.entries@);
    let ghost all = merged(ov, nv);
    let ghost mut done: Seq<PathPair> = Seq::empty();
    let mut text = String::new();
    let mut files: Vec<FileDigest> = Vec::new();
    let mut i: usize = 0;
    let mut j: usize = 0;
    proof {
        assert(ov.skip(0) =~= ov);
        assert(nv.skip(0) =~= nv);
        assert(done + all =~= all);
    }
    while i < old.entries.len() || j < new.entries.len()
        invariant
            ov == crate::digest::entries_view(old.entries@),
            nv == crate::digest::entries_view(new.entries@),
            all == merged(ov, nv),
            i <= ov.len(),
            j <= nv.len(),
            all == done + merged(ov.skip(i as int), nv.skip(j as int)),
            text@ == diff_text(done),
            files@.map_values(|f: FileDigest| digests_view(f)) == touched(done),
        decreases ov.len() - i + nv.len() - j,
    {
        let ghost os = ov.skip(i as int);
        let ghost ns = nv.skip(j as int);
        let take_old = i < old.entries.len() && (j >= new.entries.len() || lex_less(
            old.entries[i].0.as_str(),
            new.entries[j].0.as_str(),
        ));
        let take_new = !take_old && (i >= old.entries.len() || lex_less(
            new.entries[j].0.as_str(),
            old.entries[i].0.as_str(),
        ));
        let (path, before, after): (&String, Option<&Vec<u8>>, Option<&Vec<u8>>) = if take_old {
            let e = &old.entries[i];
            i = i + 1;
            (&e.0, Some(&e.1), None)
        } else if take_new {
            let e = &new.entries[j];
            j = j + 1;
            (&e.0, None, Some(&e.1))
        } else {
            let e = &old.entries[i];
            let f = &new.entries[j];
            i = i + 1;
            j = j + 1;
            (&e.0, Some(&e.1), Some(&f.1))
        };
        let ghost item: PathPair = (path@, match before {
            Some(x) => Some(x@),
            None => None,
        }, match after {
            Some(x) => Some(x@),
            None => None,
        });
        proof {
            assert(os.len() > 0 ==> os[0] == ov[i - if take_old || !take_new { 1int } else { 0 }]);
            assert(os.drop_first() =~= ov.skip(i as int) || !(take_old || !take_new));
            assert(ns.drop_first() =~= nv.skip(j as int) || take_old);
            if take_old {
                assert(ns =~= nv.skip(j as int));
                assert(merged(os, ns) == seq![item] + merged(ov.skip(i as int), nv.skip(j as int)));
            } else if take_new {
                assert(os =~= ov.skip(i as int));
                assert(merged(os, ns) == seq![item] + merged(ov.skip(i as int), nv.skip(j as int)));
            } else {
                lemma_lex_total(os[0].0, ns[0].0);
                assert(merged(os, ns) == seq![item] + merged(ov.skip(i as int), nv.skip(j as int)));
            }
            assert(all =~= done.push(item) + merged(ov.skip(i as int), nv.skip(j as int)));
            assert(done.push(item).drop_last() =~= done);
        }
        if !opt_bytes_eq(before, after) {
            let sec = section_text(path.as_str(), before, after);
            push_str(&mut text, sec.as_str());
            let ghost fs = files@;
            files.push(
                FileDigest {
                    old_path: if before.is_some() { Some(copy_string(path)) } else { None },
                    new_path: if after.is_some() { Some(copy_string(path)) } else { None },
                    old: match before {
                        Some(x) => Some(digest(x.as_slice())),
                        None => None,
                    },
                    new: match after {
                        Some(x) => Some(digest(x.as_slice())),
                        None => None,
                    },
                },
            );
            proof {
                assert(files@.map_values(|f: FileDigest| digests_view(f)) =~= fs.map_values(
                    |f: FileDigest| digests_view(f),
                ).push(digests_view(files@.last())));
            }
        }
        proof {
            done = done.push(item);
        }
    }
    proof {
        assert(ov.skip(i as int).len() == 0);
        assert(nv.skip(j as int).len() == 0);
        assert(merged(ov.skip(i as int), nv.skip(j as int)) =~= Seq::<PathPair>::empty());
        assert(all =~= done);
    }
    (text, files)
}

/// Items whose two sides hold the same bytes say nothing.
pub proof fn lemma_unchanged_items(items: Seq<PathPair>)
    requires
        forall|k: int| 0 <= k < items.len() ==> (#[trigger] items[k]).1 == items[k].2,
    ensures
        diff_text(items) == Seq::<char>::empty(),
        touched(items).len() == 0,
    decreases items.len(),
{
    if items.len() > 0 {
        lemma_unchanged_items(items.drop_last());
        assert(items.last() == items[items.len() - 1]);
        assert(diff_text(items) =~= diff_text(items.drop_last()) + Seq::<char>::empty());
    }
}

/// Merging a tree with itself pairs each file with its own bytes.
pub proof fn lemma_merged_self(t: Seq<(Seq<char>, Seq<u8>)>)
    ensures
        forall|k: int| 0 <= k < merged(t, t).len() ==> (#[trigger] merged(t, t)[k]).1 == merged(t, t)[k].2,
    decreases t.len(),
{
    if t.len() > 0 {
        lemma_lex_total(t[0].0, t[0].0);
        lemma_merged_self(t.drop_first());
        let m = merged(t, t);
        assert(m == seq![(t[0].0, Some(t[0].1), Some(t[0].1))] + merged(t.drop_first(), t.drop_first()));
        assert forall|k: int| 0 <= k < m.len() implies (#[trigger] m[k]).1 == m[k].2 by {
            if k > 0 {
                assert(m[k] == merged(t.drop_first(), t.drop_first())[k - 1]);
            }
        }
    }
}

/// A tree compared with itself has no diff, and touches no file.
pub proof fn lemma_identical_trees_have_no_diff(t: Seq<(Seq<char>, Seq<u8>)>)
    ensures
        diff_text(merged(t, t)) == Seq::<char>::empty(),
        touched(merged(t, t)).len() == 0,
{
    lemma_merged_self(t);
    lemma_unchanged_items(merged(t, t));
}

} // verus!
