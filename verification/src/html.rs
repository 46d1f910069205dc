//! What a page shows beside the data: a file's name in a view, text made
//! safe for HTML, the unchanged lines of a file opened to look at, and the
//! list of the other files a revision has.

use crate::anchor::{Absence, Placement, PlacementV, ViewVersions};
use crate::annotation::{copy_strs, effective, effective_of, placed_as, placements_view, where_};
use crate::diff::{DiffLine, FileDiff, FileDiffV, Hunk, LineKind, UnifiedDiff};
use crate::digest::Blobs;
use crate::expand::{keeps, want_of, Want};
use crate::model::{FileDigest, TreeFile};
use crate::review::Thread;
use crate::diff::{find_chars, find_seq};
use crate::record::{insert_sorted, known_spec, sorted_strs};
use crate::bundle::{component, entry_spec, Store};
use crate::git::TreeEntry;
use crate::text::{
    chars_of, copy_string, first_index, has_prefix, lemma_first_index, lines_of, opt_view, push_char, push_str,
    slice_of, split_lines, starts_with, string_of, strings_of, trim, trimmed,
};
use vstd::prelude::*;

verus! {

/// The name a file goes by in a view: its new path, else its old one.
pub open spec fn key_spec(f: FileDiff) -> Seq<char> {
    match opt_view(f.new_path) {
        Some(p) => p,
        None => match opt_view(f.old_path) {
            Some(p) => p,
            None => "?"@,
        },
    }
}

pub fn file_key(file_diff: &FileDiff) -> (r: String)
    ensures
        r@ == key_spec(*file_diff),
{
    match &file_diff.new_path {
        Some(p) => copy_string(p),
        None => match &file_diff.old_path {
            Some(p) => copy_string(p),
            None => "?".to_owned(),
        },
    }
}

/// `c` as HTML text.
pub open spec fn escaped_char(c: char) -> Seq<char> {
    if c == '&' {
        "&amp;"@
    } else if c == '<' {
        "&lt;"@
    } else if c == '>' {
        "&gt;"@
    } else if c == '"' {
        "&quot;"@
    } else {
        seq![c]
    }
}

/// `s` as HTML text: `&`, `<`, `>` and `"` written as entities.
pub open spec fn escaped(s: Seq<char>) -> Seq<char>
    decreases s.len(),
{
    if s.len() == 0 {
        Seq::empty()
    } else {
        escaped(s.drop_last()) + escaped_char(s.last())
    }
}

pub fn escape_html(s: &str) -> (r: String)
    ensures
        r@ == escaped(s@),
{
    let cs = chars_of(s);
    let mut out = String::new();
    for i in 0..cs.len()
        invariant
            cs@ == s@,
            out@ == escaped(s@.take(i as int)),
    {
        proof {
            assert(s@.take(i + 1).drop_last() =~= s@.take(i as int));
            assert(s@.take(i + 1).last() == s@[i as int]);
        }
        let c = cs[i];
        if c == '&' {
            push_str(&mut out, "&amp;");
        } else if c == '<' {
            push_str(&mut out, "&lt;");
        } else if c == '>' {
            push_str(&mut out, "&gt;");
        } else if c == '"' {
            push_str(&mut out, "&quot;");
        } else {
            push_char(&mut out, c);
            proof {
                assert(seq![c] =~= Seq::<char>::empty().push(c));
            }
        }
    }
    proof {
        assert(s@.take(s@.len() as int) =~= s@);
    }
    out
}

/// Lines drawn at a time when a stored file is opened.
pub const OPEN_CHUNK: usize = 500;

/// How many lines a chunk from line `from` (1-based, 0 read as 1) of a text
/// of `total` lines has.
pub open spec fn chunk_len(total: int, from: int) -> int {
    let first = if from < 1 { 0 } else { from - 1 };
    if total <= first {
        0
    } else if total - first < OPEN_CHUNK {
        total - first
    } else {
        OPEN_CHUNK as int
    }
}

/// `h` is lines `from ..` (at most `OPEN_CHUNK` of them) of `text`, as a
/// hunk of unchanged lines numbered as in the text.
pub open spec fn is_chunk(text: Seq<char>, from: usize, h: crate::diff::HunkV) -> bool {
    let start = if from < 1 { 1 } else { from as int };
    let n = chunk_len(lines_of(text).len() as int, from as int);
    &&& h.old_start == start as u32
    &&& h.new_start == start as u32
    &&& h.old_lines == n
    &&& h.new_lines == n
    &&& h.section_heading is None
    &&& h.lines.len() == n
    &&& forall|k: int| 0 <= k < n ==> #[trigger] h.lines[k] == (crate::diff::DiffLineV {
        kind: LineKind::Context,
        content: lines_of(text)[start - 1 + k],
        old_line: Some((start + k) as u32),
        new_line: Some((start + k) as u32),
        no_newline_at_eof: false,
    })
}

/// `OPEN_CHUNK` lines of `text` from line `from` (1-based) as a hunk of
/// unchanged lines, and where the next chunk starts (`None` at the end).
pub fn context_chunk(text: &str, from: usize) -> (r: (Hunk, Option<usize>))
    requires
        lines_of(text@).len() + OPEN_CHUNK <= u32::MAX,
    ensures
        is_chunk(text@, from, r.0@),
        match r.1 {
            Some(n) => n == (if from < 1 { 1 } else { from as int }) + OPEN_CHUNK && (if from < 1 {
                0
            } else {
                from - 1
            }) + chunk_len(lines_of(text@).len() as int, from as int) < lines_of(text@).len(),
            None => (if from < 1 { 0 } else { from - 1 }) + chunk_len(lines_of(text@).len() as int, from as int)
                >= lines_of(text@).len(),
        },
{
    let from = if from < 1 { 1 } else { from };
    let cs = chars_of(text);
    let all = split_lines(cs.as_slice());
    let total = all.len();
    let first = from - 1;
    let mut lines: Vec<DiffLine> = Vec::new();
    let mut i: usize = first;
    while i < total && i - first < OPEN_CHUNK
        invariant
            cs@ == text@,
            total == lines_of(text@).len(),
            total + OPEN_CHUNK <= u32::MAX,
            all@.len() == total,
            forall|k: int| 0 <= k < all@.len() ==> #[trigger] all@[k]@ == lines_of(text@)[k],
            first == from - 1,
            from >= 1,
            first <= i,
            i - first <= OPEN_CHUNK,
            i <= total || i == first,
            lines@.len() == i - first,
            forall|k: int| 0 <= k < lines@.len() ==> #[trigger] lines@[k]@ == (crate::diff::DiffLineV {
                kind: LineKind::Context,
                content: lines_of(text@)[first + k],
                old_line: Some((from + k) as u32),
                new_line: Some((from + k) as u32),
                no_newline_at_eof: false,
            }),
        decreases total - i,
    {
        let n = (i as u32) + 1;
        lines.push(
            DiffLine {
                kind: LineKind::Context,
                content: string_of(all[i].as_slice()),
                old_line: Some(n),
                new_line: Some(n),
                no_newline_at_eof: false,
            },
        );
        i = i + 1;
    }
    let count = lines.len() as u32;
    let next = if first + lines.len() < total {
        Some(from + OPEN_CHUNK)
    } else {
        None
    };
    let h = Hunk {
        old_start: from as u32,
        old_lines: count,
        new_start: from as u32,
        new_lines: count,
        section_heading: None,
        lines,
    };
    proof {
        assert(crate::diff::lines_view(h.lines@).len() == h.lines@.len());
        assert forall|k: int| 0 <= k < h.lines@.len() implies #[trigger] crate::diff::lines_view(h.lines@)[k]
            == h.lines@[k]@ by {}
    }
    (h, next)
}


// ---- the other files of a revision ------------------------------------------------

/// Entries listed at most, in one directory or one search.
pub const TREE_LIMIT: usize = 500;

/// One entry of the list of other files.
pub enum TreeItem {
    /// A directory (its own entries are listed when it is opened), and how
    /// many files are under it.
    Dir { path: String, name: String, count: usize },
    File { path: String, label: String },
}

pub enum TreeItemV {
    Dir { path: Seq<char>, name: Seq<char>, count: nat },
    File { path: Seq<char>, label: Seq<char> },
}

impl View for TreeItem {
    type V = TreeItemV;

    open spec fn view(&self) -> TreeItemV {
        match self {
            TreeItem::Dir { path, name, count } => TreeItemV::Dir { path: path@, name: name@, count: *count as nat },
            TreeItem::File { path, label } => TreeItemV::File { path: path@, label: label@ },
        }
    }
}

pub open spec fn items_view(v: Seq<TreeItem>) -> Seq<TreeItemV> {
    v.map_values(|t: TreeItem| t@)
}

/// What the list of other files says: entries, or why there are none (the
/// key of its message), and a note about the repository.
pub struct TreeData {
    pub items: Vec<TreeItem>,
    pub message: Option<&'static str>,
    pub note: Option<&'static str>,
    /// How many more there are than are listed.
    pub more: usize,
}

/// `str::to_lowercase` of std: the text with each character replaced by its
/// lower-case mapping, as std's Unicode tables give it.
pub uninterp spec fn lowercase(s: Seq<char>) -> Seq<char>;

#[verifier::external_body]
fn to_lowercase(s: &str) -> (r: String)
    ensures
        r@ == lowercase(s@),
{
    s.to_lowercase()
}

/// The first `TREE_LIMIT` of `s`.
pub open spec fn limited<T>(s: Seq<T>) -> Seq<T> {
    if s.len() > TREE_LIMIT {
        s.take(TREE_LIMIT as int)
    } else {
        s
    }
}

/// How many of `s` are past the first `TREE_LIMIT`.
pub open spec fn beyond<T>(s: Seq<T>) -> nat {
    if s.len() > TREE_LIMIT {
        (s.len() - TREE_LIMIT) as nat
    } else {
        0
    }
}

/// The files whose path, in lower case, has `q` in it, in order.
pub open spec fn matching(files: Seq<Seq<char>>, q: Seq<char>) -> Seq<Seq<char>>
    decreases files.len(),
{
    if files.len() == 0 {
        Seq::empty()
    } else {
        let rest = matching(files.drop_last(), q);
        if find_seq(lowercase(files.last()), q) is Some {
            rest.push(files.last())
        } else {
            rest
        }
    }
}

/// The directory a listing of `dir` is under, as a prefix of paths.
pub open spec fn dir_prefix(dir: Seq<char>) -> Seq<char> {
    if dir.len() == 0 {
        Seq::empty()
    } else {
        dir.push('/')
    }
}

/// The sub-directory of the listed one that `f` is under, if it is under one.
pub open spec fn sub_dir(f: Seq<char>, prefix: Seq<char>) -> Option<Seq<char>> {
    if has_prefix(f, prefix) {
        let rest = f.skip(prefix.len() as int);
        if first_index(rest, '/') < rest.len() {
            Some(rest.take(first_index(rest, '/')))
        } else {
            None
        }
    } else {
        None
    }
}

/// The name `f` is listed under, if it is right in the listed directory.
pub open spec fn here_name(f: Seq<char>, prefix: Seq<char>) -> Option<Seq<char>> {
    if has_prefix(f, prefix) {
        let rest = f.skip(prefix.len() as int);
        if first_index(rest, '/') < rest.len() {
            None
        } else {
            Some(rest)
        }
    } else {
        None
    }
}

/// The files right in the listed directory, in order.
pub open spec fn here_items(files: Seq<Seq<char>>, prefix: Seq<char>) -> Seq<TreeItemV>
    decreases files.len(),
{
    if files.len() == 0 {
        Seq::empty()
    } else {
        let rest = here_items(files.drop_last(), prefix);
        match here_name(files.last(), prefix) {
            Some(n) => rest.push(TreeItemV::File { path: files.last(), label: n }),
            None => rest,
        }
    }
}

/// How many files are under the sub-directory `name`.
pub open spec fn dir_count(files: Seq<Seq<char>>, prefix: Seq<char>, name: Seq<char>) -> nat
    decreases files.len(),
{
    if files.len() == 0 {
        0
    } else {
        dir_count(files.drop_last(), prefix, name) + if sub_dir(files.last(), prefix) == Some(name) {
            1nat
        } else {
            0nat
        }
    }
}

/// `names` are the sub-directories the files are under, each once, sorted.
pub open spec fn dirs_of(names: Seq<Seq<char>>, files: Seq<Seq<char>>, prefix: Seq<char>) -> bool {
    &&& sorted_strs(names)
    &&& forall|x: Seq<char>| names.contains(x) <==> exists|j: int| 0 <= j < files.len() && #[trigger] sub_dir(files[j], prefix) == Some(x)
}

/// The entries of a directory listing: the sub-directories (with how many
/// files each has), then the files right in it.
pub open spec fn listing(names: Seq<Seq<char>>, files: Seq<Seq<char>>, prefix: Seq<char>) -> Seq<TreeItemV> {
    names.map_values(|n: Seq<char>| TreeItemV::Dir { path: prefix + n, name: n, count: dir_count(files, prefix, n) })
        + here_items(files, prefix)
}

/// What the list of other files shows, given the files the view does not
/// already show (sorted, each once): with a `query`, the files whose path
/// contains it (in any case); else the entries of directory `dir`. `note`
/// says something about the repository, shown at the top level only.
pub open spec fn tree_data_spec(
    files: Seq<Seq<char>>,
    dir: Seq<char>,
    query: Seq<char>,
    note: Option<Seq<char>>,
    r: (Seq<TreeItemV>, Option<Seq<char>>, Option<Seq<char>>, nat),
) -> bool {
    let q = lowercase(trim(query));
    if files.len() == 0 {
        r == (Seq::<TreeItemV>::empty(), Some("html.nothing_else_openable"@), note, 0nat)
    } else if q.len() > 0 {
        let found = matching(files, q);
        if found.len() == 0 {
            r == (Seq::<TreeItemV>::empty(), Some("html.not_found"@), None::<Seq<char>>, 0nat)
        } else {
            let all = found.map_values(|f: Seq<char>| TreeItemV::File { path: f, label: f });
            r == (limited(all), None::<Seq<char>>, None::<Seq<char>>, beyond(all))
        }
    } else {
        exists|names: Seq<Seq<char>>| {
            &&& dirs_of(names, files, dir_prefix(dir))
            &&& r == (
                limited(listing(names, files, dir_prefix(dir))),
                None::<Seq<char>>,
                if dir.len() == 0 {
                    note
                } else {
                    None
                },
                beyond(listing(names, files, dir_prefix(dir))),
            )
        }
    }
}

pub open spec fn opt_str_view(s: Option<&str>) -> Option<Seq<char>> {
    match s {
        Some(x) => Some(x@),
        None => None,
    }
}

/// Where `f` goes in a listing under `prefix`: its sub-directory, or its
/// name right in the listed directory.
fn place_in(f: &str, prefix: &[char]) -> (r: (Option<String>, Option<String>))
    ensures
        opt_view(r.0) == sub_dir(f@, prefix@),
        opt_view(r.1) == here_name(f@, prefix@),
{
    let cs = chars_of(f);
    if !starts_with(cs.as_slice(), prefix) {
        return (None, None);
    }
    let rest = slice_of(cs.as_slice(), prefix.len(), cs.len());
    proof {
        lemma_first_index(rest@, '/');
        assert(rest@.skip(0) =~= rest@);
    }
    let k = crate::text::find_char(rest.as_slice(), 0, '/');
    if k < rest.len() {
        let name = slice_of(rest.as_slice(), 0, k);
        (Some(string_of(name.as_slice())), None)
    } else {
        (None, Some(string_of(rest.as_slice())))
    }
}

fn push_limited(items: &mut Vec<TreeItem>, more: &mut usize, item: TreeItem)
    requires
        *old(more) < usize::MAX,
    ensures
        items_view(final(items)@) == if items_view(old(items)@).len() < TREE_LIMIT {
            items_view(old(items)@).push(item@)
        } else {
            items_view(old(items)@)
        },
        *final(more) == if items_view(old(items)@).len() < TREE_LIMIT {
            *old(more)
        } else {
            (*old(more) + 1) as usize
        },
{
    if items.len() < TREE_LIMIT {
        let ghost before = items@;
        items.push(item);
        proof {
            assert(items_view(items@) =~= items_view(before).push(item@));
        }
    } else {
        *more = *more + 1;
    }
}

/// The list of other files: the entries of directory `dir` (sub-directories
/// are listed when opened), or, with a `query`, the files whose path has it
/// in any case. `files` are the files the view does not already show.
pub fn tree_data(files: &Vec<String>, dir: &str, query: &str, note: Option<&'static str>) -> (r: TreeData)
    ensures
        tree_data_spec(strings_of(files@), dir@, query@, opt_str_view(note), (items_view(r.items@), opt_str_view(r.message), opt_str_view(r.note), r.more as nat)),
{
    let ghost fv = strings_of(files@);
    if files.len() == 0 {
        let r = TreeData { items: Vec::new(), message: Some("html.nothing_else_openable"), note, more: 0 };
        proof {
            assert(items_view(r.items@) =~= Seq::<TreeItemV>::empty());
        }
        return r;
    }
    let tq = trimmed(chars_of(query).as_slice());
    let tq_s = string_of(tq.as_slice());
    let q = to_lowercase(tq_s.as_str());
    let qc = chars_of(q.as_str());
    if qc.len() > 0 {
        let mut found: Vec<String> = Vec::new();
        for i in 0..files.len()
            invariant
                fv == strings_of(files@),
                qc@ == lowercase(trim(query@)),
                strings_of(found@) == matching(fv.take(i as int), qc@),
                found@.len() <= i,
        {
            proof {
                assert(fv.take(i + 1).drop_last() =~= fv.take(i as int));
                assert(fv.take(i + 1).last() == files@[i as int]@);
            }
            let low = to_lowercase(files[i].as_str());
            if find_chars(chars_of(low.as_str()).as_slice(), qc.as_slice()).is_some() {
                let ghost before = found@;
                found.push(copy_string(&files[i]));
                proof {
                    assert(strings_of(found@) =~= strings_of(before).push(files@[i as int]@));
                }
            }
        }
        proof {
            assert(fv.take(fv.len() as int) =~= fv);
        }
        if found.len() == 0 {
            let r = TreeData { items: Vec::new(), message: Some("html.not_found"), note: None, more: 0 };
            proof {
                assert(items_view(r.items@) =~= Seq::<TreeItemV>::empty());
            }
            return r;
        }
        let ghost all = strings_of(found@).map_values(|f: Seq<char>| TreeItemV::File { path: f, label: f });
        let mut items: Vec<TreeItem> = Vec::new();
        let mut more: usize = 0;
        for k in 0..found.len()
            invariant
                all == strings_of(found@).map_values(|f: Seq<char>| TreeItemV::File { path: f, label: f }),
                items_view(items@) == limited(all.take(k as int)),
                more == beyond(all.take(k as int)),
        {
            proof {
                assert(all.take(k + 1) =~= all.take(k as int).push(all[k as int]));
                if k + 1 > TREE_LIMIT {
                    assert(all.take(k + 1).take(TREE_LIMIT as int) =~= all.take(k as int).take(TREE_LIMIT as int));
                }
                if k == TREE_LIMIT {
                    assert(all.take(k as int).take(TREE_LIMIT as int) =~= all.take(k as int));
                }
            }
            push_limited(&mut items, &mut more, TreeItem::File { path: copy_string(&found[k]), label: copy_string(&found[k]) });
        }
        proof {
            assert(all.take(all.len() as int) =~= all);
        }
        return TreeData { items, message: None, note: None, more };
    }
    // A directory's entries.
    let prefix: Vec<char> = if dir.is_empty() {
        Vec::new()
    } else {
        let mut p = chars_of(dir);
        p.push('/');
        p
    };
    let ghost pv = dir_prefix(dir@);
    proof {
        assert(prefix@ =~= pv);
    }
    let mut names: Vec<String> = Vec::new();
    let mut here: Vec<TreeItem> = Vec::new();
    for i in 0..files.len()
        invariant
            fv == strings_of(files@),
            prefix@ == pv,
            sorted_strs(strings_of(names@)),
            forall|x: Seq<char>| strings_of(names@).contains(x) <==> exists|j: int| 0 <= j < i && #[trigger] sub_dir(fv[j], pv) == Some(x),
            items_view(here@) == here_items(fv.take(i as int), pv),
            names@.len() + here@.len() <= i,
    {
        proof {
            assert(fv.take(i + 1).drop_last() =~= fv.take(i as int));
            assert(fv.take(i + 1).last() == fv[i as int]);
        }
        let (sub, name) = place_in(files[i].as_str(), prefix.as_slice());
        let ghost before = strings_of(names@);
        match &sub {
            Some(s) => insert_sorted(&mut names, s),
            None => {},
        }
        match name {
            Some(n) => {
                let ghost h0 = here@;
                here.push(TreeItem::File { path: copy_string(&files[i]), label: n });
                proof {
                    assert(items_view(here@) =~= items_view(h0).push(here@.last()@));
                }
            },
            None => {},
        }
        proof {
            assert forall|x: Seq<char>| strings_of(names@).contains(x) <==> exists|j: int| 0 <= j < i + 1 && #[trigger] sub_dir(fv[j], pv) == Some(x) by {
                if exists|j: int| 0 <= j < i + 1 && #[trigger] sub_dir(fv[j], pv) == Some(x) {
                    let j = choose|j: int| 0 <= j < i + 1 && #[trigger] sub_dir(fv[j], pv) == Some(x);
                    if j < i {
                        assert(before.contains(x));
                    }
                }
                if before.contains(x) {
                    let j = choose|j: int| 0 <= j < i && #[trigger] sub_dir(fv[j], pv) == Some(x);
                    assert(0 <= j < i + 1 && sub_dir(fv[j], pv) == Some(x));
                }
            }
        }
    }
    proof {
        assert(fv.take(fv.len() as int) =~= fv);
    }
    let ghost nv = strings_of(names@);
    let ghost entries = listing(nv, fv, pv);
    let mut items: Vec<TreeItem> = Vec::new();
    let mut more: usize = 0;
    for k in 0..names.len()
        invariant
            fv == strings_of(files@),
            prefix@ == pv,
            nv == strings_of(names@),
            entries == listing(nv, fv, pv),
            items_view(items@) == limited(entries.take(k as int)),
            more == beyond(entries.take(k as int)),
            names@.len() + here@.len() <= files@.len(),
            more <= k,
    {
        // How many files are under this one.
        let mut count: usize = 0;
        for i in 0..files.len()
            invariant
                fv == strings_of(files@),
                prefix@ == pv,
                nv == strings_of(names@),
                k < nv.len(),
                count == dir_count(fv.take(i as int), pv, nv[k as int]),
                count <= i,
        {
            proof {
                assert(fv.take(i + 1).drop_last() =~= fv.take(i as int));
                assert(fv.take(i + 1).last() == fv[i as int]);
            }
            let (sub, _) = place_in(files[i].as_str(), prefix.as_slice());
            match &sub {
                Some(s) => {
                    if crate::text::same_string(s, &names[k]) {
                        count = count + 1;
                    }
                },
                None => {},
            }
        }
        proof {
            assert(fv.take(fv.len() as int) =~= fv);
            assert(entries[k as int] == TreeItemV::Dir { path: pv + nv[k as int], name: nv[k as int], count: dir_count(fv, pv, nv[k as int]) });
            assert(entries.take(k + 1) =~= entries.take(k as int).push(entries[k as int]));
            if k + 1 > TREE_LIMIT {
                assert(entries.take(k + 1).take(TREE_LIMIT as int) =~= entries.take(k as int).take(TREE_LIMIT as int));
            }
            if k == TREE_LIMIT {
                assert(entries.take(k as int).take(TREE_LIMIT as int) =~= entries.take(k as int));
            }
        }
        let mut path = string_of(prefix.as_slice());
        push_str(&mut path, names[k].as_str());
        push_limited(&mut items, &mut more, TreeItem::Dir { path, name: copy_string(&names[k]), count });
    }
    let ghost hv = items_view(here@);
    let nfiles: usize = files.len();
    for k in 0..here.len()
        invariant
            hv == items_view(here@),
            hv == here_items(fv, pv),
            entries == listing(nv, fv, pv),
            nv.len() + here@.len() == entries.len(),
            items_view(items@) == limited(entries.take(nv.len() + k)),
            more == beyond(entries.take(nv.len() + k)),
            nv.len() + here@.len() <= nfiles,
            more <= nv.len() + k,
    {
        proof {
            assert(entries[nv.len() + k] == hv[k as int]);
            assert(entries.take(nv.len() + k + 1) =~= entries.take(nv.len() + k).push(entries[nv.len() + k]));
            if nv.len() + k + 1 > TREE_LIMIT {
                assert(entries.take(nv.len() + k + 1).take(TREE_LIMIT as int) =~= entries.take(nv.len() + k).take(
                    TREE_LIMIT as int,
                ));
            }
            if nv.len() + k == TREE_LIMIT {
                assert(entries.take(nv.len() + k).take(TREE_LIMIT as int) =~= entries.take(nv.len() + k));
            }
        }
        let item = match &here[k] {
            TreeItem::File { path, label } => TreeItem::File { path: copy_string(path), label: copy_string(label) },
            TreeItem::Dir { path, name, count } => TreeItem::Dir { path: copy_string(path), name: copy_string(name), count: *count },
        };
        push_limited(&mut items, &mut more, item);
    }
    proof {
        assert(entries.take(entries.len() as int) =~= entries);
        assert(dirs_of(nv, fv, pv));
    }
    TreeData { items, message: None, note: if dir.is_empty() { note } else { None }, more }
}

// ---- where threads go in a revision's view -------------------------------------------

/// One revision of the review to show: its diff and per-file digests, and a
/// short label for the switcher.
pub struct RevisionView<'a> {
    pub label: String,
    pub diff: &'a UnifiedDiff,
    pub files: &'a [FileDigest],
    /// The head tree the revision recorded (for files its diff leaves alone).
    pub tree: &'a [TreeFile],
}

/// What the page needs of a thread beside where it is: its color (threads
/// on lines, numbered in order), what its lines said (absent or unplaced),
/// why they are absent, the lines it sits on, its file, and where in its file
/// it starts (to order the thread list).
pub struct Mark {
    pub color: Option<usize>,
    pub was: Option<Vec<String>>,
    pub absent: Option<Absence>,
    pub lines: Option<(u32, u32)>,
    pub file: Option<String>,
    pub start: Option<u32>,
}

pub struct MarkV {
    pub color: Option<nat>,
    pub was: Option<Seq<Seq<char>>>,
    pub absent: Option<Absence>,
    pub lines: Option<(u32, u32)>,
    pub file: Option<Seq<char>>,
    pub start: Option<u32>,
}

impl View for Mark {
    type V = MarkV;

    open spec fn view(&self) -> MarkV {
        MarkV {
            color: match self.color {
                Some(c) => Some(c as nat),
                None => None,
            },
            was: match self.was {
                Some(w) => Some(strings_of(w@)),
                None => None,
            },
            absent: self.absent,
            lines: self.lines,
            file: opt_view(self.file),
            start: self.start,
        }
    }
}

/// How many colors the page has for threads on lines.
pub const PALETTE_LEN: usize = 8;

/// The mark of a thread placed at `e`, `n` threads on lines coming before
/// it.
pub open spec fn mark_spec(t: Thread, e: PlacementV, n: nat, blobs: Blobs) -> MarkV {
    let none = MarkV { color: None, was: None, absent: None, lines: None, file: None, start: None };
    match e {
        PlacementV::Global => none,
        PlacementV::File(f) => MarkV { file: Some(f), ..none },
        PlacementV::Line { file, line_start, line_end, .. } => MarkV {
            color: Some(n % (PALETTE_LEN as nat)),
            lines: Some((line_start, line_end)),
            file: Some(file),
            start: Some(line_start),
            ..none
        },
        PlacementV::Point { file, before, was, kind } => MarkV {
            absent: Some(kind),
            was: Some(was),
            file: Some(file),
            start: Some(before),
            ..none
        },
        PlacementV::Unplaced { file } => MarkV {
            file: Some(file),
            was: Some(crate::anchor::original_text_spec(t.anchor, blobs)),
            ..none
        },
    }
}

/// How many of the first `i` threads are on lines.
pub open spec fn lines_before(eff: Seq<PlacementV>, i: int) -> nat {
    where_(eff.take(i), |e: PlacementV| e is Line).len()
}

/// The files the threads are about, in thread order, with repeats.
pub open spec fn mentioned(eff: Seq<PlacementV>) -> Seq<Seq<char>>
    decreases eff.len(),
{
    if eff.len() == 0 {
        Seq::empty()
    } else {
        let rest = mentioned(eff.drop_last());
        match eff.last() {
            PlacementV::Global => rest,
            PlacementV::File(f) => rest.push(f),
            PlacementV::Line { file, .. } => rest.push(file),
            PlacementV::Point { file, .. } => rest.push(file),
            PlacementV::Unplaced { file } => rest.push(file),
        }
    }
}

/// `acc`, then each of `items` not there by then.
pub open spec fn append_distinct(acc: Seq<Seq<char>>, items: Seq<Seq<char>>) -> Seq<Seq<char>>
    decreases items.len(),
{
    if items.len() == 0 {
        acc
    } else {
        append_distinct(if acc.contains(items[0]) { acc } else { acc.push(items[0]) }, items.drop_first())
    }
}

/// The order files are shown in: the diff's, then those only threads bring
/// in, as they are first met.
pub open spec fn file_order_spec(diff: Seq<FileDiff>, eff: Seq<PlacementV>) -> Seq<Seq<char>> {
    append_distinct(diff.map_values(|f: FileDiff| key_spec(f)), mentioned(eff))
}

fn copy_absence(a: &Absence) -> (r: Absence)
    ensures
        r == *a,
{
    *a
}

/// The marks of threads placed at `eff`.
pub fn marks_of(threads: &Vec<Thread>, eff: &Vec<Placement>, blobs: &Blobs) -> (r: Vec<Mark>)
    requires
        threads@.len() == eff@.len(),
        forall|i: int| 0 <= i < threads@.len() ==> crate::anchor::ranges_start_at_one(#[trigger] threads@[i].anchor, *blobs),
    ensures
        r@.len() == eff@.len(),
        forall|i: int| 0 <= i < r@.len() ==> (#[trigger] r@[i])@ == mark_spec(
            threads@[i],
            placements_view(eff@)[i],
            lines_before(placements_view(eff@), i),
            *blobs,
        ),
{
    let ghost pv = placements_view(eff@);
    let mut out: Vec<Mark> = Vec::new();
    let mut on_lines: usize = 0;
    for i in 0..eff.len()
        invariant
            threads@.len() == eff@.len(),
            pv == placements_view(eff@),
            forall|i: int| 0 <= i < threads@.len() ==> crate::anchor::ranges_start_at_one(#[trigger] threads@[i].anchor, *blobs),
            out@.len() == i,
            on_lines == lines_before(pv, i as int),
            on_lines <= i,
            forall|k: int| 0 <= k < i ==> (#[trigger] out@[k])@ == mark_spec(threads@[k], pv[k], lines_before(pv, k), *blobs),
    {
        proof {
            assert(pv.take(i + 1).drop_last() =~= pv.take(i as int));
            assert(pv.take(i + 1).last() == pv[i as int]);
        }
        let m = match &eff[i] {
            Placement::Global => Mark { color: None, was: None, absent: None, lines: None, file: None, start: None },
            Placement::File(f) => Mark {
                color: None,
                was: None,
                absent: None,
                lines: None,
                file: Some(copy_string(f)),
                start: None,
            },
            Placement::Line { file, line_start, line_end, .. } => {
                let c = on_lines % PALETTE_LEN;
                on_lines = on_lines + 1;
                Mark {
                    color: Some(c),
                    was: None,
                    absent: None,
                    lines: Some((*line_start, *line_end)),
                    file: Some(copy_string(file)),
                    start: Some(*line_start),
                }
            },
            Placement::Point { file, before, was, kind } => Mark {
                color: None,
                was: Some(copy_strs(was)),
                absent: Some(copy_absence(kind)),
                lines: None,
                file: Some(copy_string(file)),
                start: Some(*before),
            },
            Placement::Unplaced { file } => {
                let was = crate::anchor::original_text(&threads[i].anchor, blobs);
                Mark {
                    color: None,
                    was: Some(was),
                    absent: None,
                    lines: None,
                    file: Some(copy_string(file)),
                    start: None,
                }
            },
        };
        proof {
            assert(crate::anchor::strings_view(eff@[i as int]->Point_was@) == strings_of(eff@[i as int]->Point_was@) || !(eff@[i as int] is Point));
        }
        out.push(m);
    }
    out
}

/// The order files are shown in: the diff's, then those only threads bring
/// in, in the order they are first met.
pub fn file_order_of(diff: &UnifiedDiff, eff: &Vec<Placement>) -> (r: Vec<String>)
    ensures
        strings_of(r@) == file_order_spec(diff.files@, placements_view(eff@)),
{
    let ghost pv = placements_view(eff@);
    let ghost keys = diff.files@.map_values(|f: FileDiff| key_spec(f));
    let mut out: Vec<String> = Vec::new();
    for i in 0..diff.files.len()
        invariant
            keys == diff.files@.map_values(|f: FileDiff| key_spec(f)),
            strings_of(out@) == keys.take(i as int),
    {
        let ghost before = out@;
        out.push(file_key(&diff.files[i]));
        proof {
            assert(strings_of(out@) =~= strings_of(before).push(keys[i as int]));
            assert(keys.take(i + 1) =~= keys.take(i as int).push(keys[i as int]));
        }
    }
    proof {
        assert(keys.take(keys.len() as int) =~= keys);
    }
    // The files threads bring in, with repeats.
    let mut more: Vec<String> = Vec::new();
    for i in 0..eff.len()
        invariant
            pv == placements_view(eff@),
            strings_of(more@) == mentioned(pv.take(i as int)),
    {
        proof {
            assert(pv.take(i + 1).drop_last() =~= pv.take(i as int));
            assert(pv.take(i + 1).last() == pv[i as int]);
        }
        let f: Option<&String> = match &eff[i] {
            Placement::Global => None,
            Placement::File(f) => Some(f),
            Placement::Line { file, .. } => Some(file),
            Placement::Point { file, .. } => Some(file),
            Placement::Unplaced { file } => Some(file),
        };
        if let Some(f) = f {
            let ghost before = more@;
            more.push(copy_string(f));
            proof {
                assert(strings_of(more@) =~= strings_of(before).push(f@));
            }
        }
    }
    proof {
        assert(pv.take(pv.len() as int) =~= pv);
    }
    let ghost mv = strings_of(more@);
    let ghost target = append_distinct(keys, mv);
    proof {
        assert(mv.skip(0) =~= mv);
    }
    for j in 0..more.len()
        invariant
            mv == strings_of(more@),
            target == append_distinct(strings_of(out@), mv.skip(j as int)),
    {
        proof {
            assert(mv.skip(j as int).drop_first() =~= mv.skip(j + 1));
            assert(mv.skip(j as int)[0] == more@[j as int]@);
        }
        let mut found = false;
        for k in 0..out.len()
            invariant
                j < more@.len(),
                found <==> exists|q: int| 0 <= q < k && out@[q]@ == more@[j as int]@,
        {
            if crate::text::same_string(&out[k], &more[j]) {
                found = true;
            }
        }
        proof {
            let sv = strings_of(out@);
            if found {
                let q = choose|q: int| 0 <= q < out@.len() && out@[q]@ == more@[j as int]@;
                assert(sv[q] == more@[j as int]@);
            } else {
                assert forall|q: int| 0 <= q < sv.len() implies sv[q] != more@[j as int]@ by {
                    assert(sv[q] == out@[q]@);
                }
            }
        }
        if !found {
            let ghost before = out@;
            out.push(copy_string(&more[j]));
            proof {
                assert(strings_of(out@) =~= strings_of(before).push(more@[j as int]@));
            }
        }
    }
    proof {
        assert(mv.skip(mv.len() as int).len() == 0);
    }
    out
}

/// Where every thread goes in one revision's view: each placed by its
/// anchor and the texts (never by what the diff shows), the view's diff
/// with context added around whatever it does not show, the digests of the
/// files added only for that, each thread's mark, and the order of files.
pub struct Placed {
    pub placements: Vec<Placement>,
    pub diff: UnifiedDiff,
    pub synthetic_files: Vec<FileDigest>,
    pub marks: Vec<Mark>,
    pub file_order: Vec<String>,
}

pub fn place(threads: &Vec<Thread>, view: &RevisionView, blobs: &Blobs) -> (r: Placed)
    requires
        forall|i: int| 0 <= i < threads@.len() ==> crate::anchor::anchor_fits(#[trigger] threads@[i].anchor)
            && crate::anchor::ranges_start_at_one(threads@[i].anchor, *blobs),
    ensures
        r.diff@.len() >= view.diff@.len(),
        forall|i: int| 0 <= i < view.diff@.len() ==> keeps(view.diff@[i], #[trigger] r.diff@[i]),
        r.placements@.len() == threads@.len(),
        exists|ps: Seq<Placement>|
            #![trigger crate::annotation::effective_all(ps, r.diff@)]
            {
                &&& ps.len() == threads@.len()
                &&& forall|i: int| 0 <= i < ps.len() ==> placed_as(
                    threads@[i].anchor,
                    view.diff.files@,
                    ViewVersions { files: view.files, tree: view.tree },
                    *blobs,
                    #[trigger] ps[i],
                )
                &&& placements_view(r.placements@) == crate::annotation::effective_all(ps, r.diff@)
            },
        r.marks@.len() == threads@.len(),
        forall|i: int| 0 <= i < r.marks@.len() ==> (#[trigger] r.marks@[i])@ == mark_spec(
            threads@[i],
            placements_view(r.placements@)[i],
            lines_before(placements_view(r.placements@), i),
            *blobs,
        ),
        strings_of(r.file_order@) == file_order_spec(r.diff.files@, placements_view(r.placements@)),
{
    let versions = ViewVersions { files: view.files, tree: view.tree };
    let mut placements: Vec<Placement> = Vec::new();
    for i in 0..threads.len()
        invariant
            forall|i: int| 0 <= i < threads@.len() ==> crate::anchor::anchor_fits(#[trigger] threads@[i].anchor)
                && crate::anchor::ranges_start_at_one(threads@[i].anchor, *blobs),
            versions == (ViewVersions { files: view.files, tree: view.tree }),
            placements@.len() == i,
            forall|k: int| 0 <= k < i ==> placed_as(threads@[k].anchor, view.diff.files@, versions, *blobs, #[trigger] placements@[k]),
    {
        let p = crate::anchor::resolve_placement(&threads[i].anchor, view.diff, &versions, blobs);
        placements.push(p);
    }
    let mut wants: Vec<Want> = Vec::new();
    for i in 0..placements.len() {
        match want_of(&placements[i]) {
            Some(w) => wants.push(w),
            None => {},
        }
    }
    let (expanded, synthetic) = crate::expand::expand(view.diff, &wants, &versions, blobs);
    let ghost ev = crate::annotation::effective_all(placements@, expanded@);
    let mut eff: Vec<Placement> = Vec::new();
    for i in 0..placements.len()
        invariant
            ev == crate::annotation::effective_all(placements@, expanded@),
            placements_view(eff@) == ev.take(i as int),
    {
        let e = effective_of(&placements[i], &expanded);
        let ghost before = eff@;
        eff.push(e);
        proof {
            assert(placements_view(eff@) =~= placements_view(before).push(e@));
            assert(ev.take(i + 1) =~= ev.take(i as int).push(ev[i as int]));
        }
    }
    proof {
        assert(ev.take(ev.len() as int) =~= ev);
    }
    let marks = marks_of(threads, &eff, blobs);
    let file_order = file_order_of(&expanded, &eff);
    let mut synthetic_files: Vec<FileDigest> = Vec::new();
    for j in 0..synthetic.len() {
        match versions.head(synthetic[j].as_str()) {
            Some(d) => {
                synthetic_files.push(
                    FileDigest {
                        old_path: Some(copy_string(&synthetic[j])),
                        new_path: Some(copy_string(&synthetic[j])),
                        old: Some(d.to_owned()),
                        new: Some(d.to_owned()),
                    },
                );
            },
            None => {},
        }
    }
    proof {
        assert(placements@.len() == threads@.len());
        assert(forall|i: int| 0 <= i < placements@.len() ==> placed_as(
            threads@[i].anchor,
            view.diff.files@,
            ViewVersions { files: view.files, tree: view.tree },
            *blobs,
            #[trigger] placements@[i],
        ));
        assert(placements_view(eff@) == crate::annotation::effective_all(placements@, expanded@));
    }
    let r = Placed { placements: eff, diff: expanded, synthetic_files, marks, file_order };
    proof {
        assert(placements_view(r.placements@) == crate::annotation::effective_all(placements@, r.diff@));
    }
    r
}

/// Whether `path` is one of the other files of a revision (see
/// `other_files`).
pub open spec fn other_file(
    entries: Seq<(String, Vec<u8>)>,
    manifest: Seq<TreeFile>,
    shown: Seq<Seq<char>>,
    commit: Option<Seq<TreeEntry>>,
    path: Seq<char>,
) -> bool {
    &&& !shown.contains(path)
    &&& {
        ||| exists|i: int|
            0 <= i < manifest.len() && (#[trigger] manifest[i]).path@ == path && entry_spec(
                entries,
                "blobs/"@ + component(manifest[i].digest@),
            ) is Some
        ||| (commit is Some && !known_spec(manifest, path) && exists|j: int|
            0 <= j < commit->0.len() && (#[trigger] commit->0[j]).path@ == path)
    }
}

fn is_shown(shown: &[String], path: &String) -> (r: bool)
    ensures
        r == strings_of(shown@).contains(path@),
{
    for i in 0..shown.len()
        invariant
            forall|j: int| 0 <= j < i ==> shown@[j]@ != path@,
    {
        if crate::text::same_string(&shown[i], path) {
            assert(strings_of(shown@)[i as int] == path@);
            return true;
        }
    }
    proof {
        if strings_of(shown@).contains(path@) {
            let j = choose|j: int| 0 <= j < strings_of(shown@).len() && strings_of(shown@)[j] == path@;
            assert(shown@[j]@ == path@);
        }
    }
    false
}

fn in_manifest(manifest: &[TreeFile], path: &String) -> (r: bool)
    ensures
        r == known_spec(manifest@, path@),
{
    for i in 0..manifest.len()
        invariant
            forall|j: int| 0 <= j < i ==> (#[trigger] manifest@[j]).path@ != path@,
    {
        if crate::text::same_string(&manifest[i].path, path) {
            return true;
        }
    }
    false
}

/// The files a revision has that the view does not show already (`shown`:
/// the diff's files and those threads bring in): those its head tree
/// (`manifest`) records and the bundle (`store`) stores, and, next to the
/// repository, the rest of its head commit (`commit`); by path, sorted, each
/// once.
pub fn other_files(store: &Store, manifest: &[TreeFile], shown: &[String], commit: Option<&[TreeEntry]>) -> (r: Vec<String>)
    ensures
        sorted_strs(strings_of(r@)),
        forall|p: Seq<char>|
            #[trigger] strings_of(r@).contains(p) <==> other_file(
                store.entries@,
                manifest@,
                strings_of(shown@),
                match commit {
                    Some(t) => Some(t@),
                    None => None,
                },
                p,
            ),
{
    let ghost tv = match commit {
        Some(t) => Some(t@),
        None => None::<Seq<TreeEntry>>,
    };
    let ghost sv = strings_of(shown@);
    let mut out: Vec<String> = Vec::new();
    for i in 0..manifest.len()
        invariant
            sv == strings_of(shown@),
            sorted_strs(strings_of(out@)),
            forall|p: Seq<char>| #[trigger] strings_of(out@).contains(p) <==> (!sv.contains(p) && exists|k: int|
                0 <= k < i && (#[trigger] manifest@[k]).path@ == p && entry_spec(
                    store.entries@,
                    "blobs/"@ + component(manifest@[k].digest@),
                ) is Some),
    {
        let f = &manifest[i];
        if !is_shown(shown, &f.path) && store.blob(f.digest.as_str()).is_some() {
            insert_sorted(&mut out, &f.path);
            assert forall|p: Seq<char>| #[trigger] strings_of(out@).contains(p) <==> (!sv.contains(p) && exists|k: int|
                0 <= k < i + 1 && (#[trigger] manifest@[k]).path@ == p && entry_spec(
                    store.entries@,
                    "blobs/"@ + component(manifest@[k].digest@),
                ) is Some) by {
                if p == f.path@ {
                    assert(manifest@[i as int].path@ == p);
                }
            }
        }
    }
    let ghost after_manifest = out@;
    if let Some(tree) = commit {
        for j in 0..tree.len()
            invariant
                sv == strings_of(shown@),
                tv == Some(tree@),
                sorted_strs(strings_of(out@)),
                forall|p: Seq<char>| #[trigger] strings_of(out@).contains(p) <==> (!sv.contains(p) && (
                (exists|k: int|
                    0 <= k < manifest@.len() && (#[trigger] manifest@[k]).path@ == p && entry_spec(
                        store.entries@,
                        "blobs/"@ + component(manifest@[k].digest@),
                    ) is Some) || (!known_spec(manifest@, p) && exists|q: int|
                    0 <= q < j && (#[trigger] tree@[q]).path@ == p))),
        {
            let e = &tree[j];
            if !is_shown(shown, &e.path) && !in_manifest(manifest, &e.path) {
                insert_sorted(&mut out, &e.path);
            }
            assert forall|p: Seq<char>| #[trigger] strings_of(out@).contains(p) <==> (!sv.contains(p) && (
            (exists|k: int|
                0 <= k < manifest@.len() && (#[trigger] manifest@[k]).path@ == p && entry_spec(
                    store.entries@,
                    "blobs/"@ + component(manifest@[k].digest@),
                ) is Some) || (!known_spec(manifest@, p) && exists|q: int|
                0 <= q < j + 1 && (#[trigger] tree@[q]).path@ == p))) by {
                if p == e.path@ {
                    assert(tree@[j as int].path@ == p);
                }
            }
        }
        assert forall|p: Seq<char>| #[trigger] strings_of(out@).contains(p) implies other_file(
            store.entries@, manifest@, sv, Some(tree@), p) by {
            if !(exists|k: int|
                0 <= k < manifest@.len() && (#[trigger] manifest@[k]).path@ == p && entry_spec(
                    store.entries@,
                    "blobs/"@ + component(manifest@[k].digest@),
                ) is Some) {
                assert(!known_spec(manifest@, p));
                let q = choose|q: int| 0 <= q < tree@.len() && (#[trigger] tree@[q]).path@ == p;
                assert(tree@[q].path@ == p);
                assert(Some(tree@)->0[q] == tree@[q]);
            }
            assert(!sv.contains(p));
        }
        assert forall|p: Seq<char>| other_file(store.entries@, manifest@, sv, Some(tree@), p) implies #[trigger] strings_of(out@).contains(p) by {
        }
    } else {
        assert forall|p: Seq<char>| #[trigger] strings_of(out@).contains(p) <==> other_file(
            store.entries@, manifest@, sv, None, p) by {
        }
    }
    out
}

} // verus!
