//! The contents of a `.diffnote` bundle beside its event log: the diff text
//! of every revision recorded, and content-addressed stores of the file
//! versions, images and attached files the review refers to.
//!
//! Layout of the entries:
//! ```text
//! diffs/<digest>.diff      one per recorded revision (its unified diff)
//! blobs/<sha256 hex>       one per distinct file version, however many
//!                          revisions have it
//! images/<sha256 hex>      one per distinct image attached to a comment
//! attachments/<sha256 hex> one per distinct other file attached to a comment
//! ```
//! `<digest>` is a revision's digest string (`sha256:...`) with the
//! `sha256:` prefix stripped, so it is a plain hex string, safe as a path
//! component on every platform. A bundle is always rewritten whole: what a
//! save writes is worked out here, entry by entry.

use crate::digest::{
    digest, digest_of, entries_view, first_blob, lemma_first_blob_at, lemma_first_blob_none,
    sha256_hex, utf8_text, Blobs,
};
use crate::model::{DEFAULT_ATTACHMENT_LIMIT, Event, FileDigest, Revision, Settings, TreeFile};
use crate::text::{chars_of, has_prefix, push_str, starts_with_str, string_of, copy_string, trim, trimmed};
use vstd::prelude::*;
use vstd::string::*;

verus! {

/// `digest` without its `sha256:` prefix, if it has one.
pub open spec fn component(digest: Seq<char>) -> Seq<char> {
    if has_prefix(digest, "sha256:"@) {
        digest.skip(7)
    } else {
        digest
    }
}

/// A digest as the last part of an entry's name: without `sha256:`.
pub fn digest_path_component(digest: &str) -> (r: &str)
    ensures
        r@ == component(digest@),
{
    proof {
        reveal_strlit("sha256:");
    }
    let chars = chars_of(digest);
    if starts_with_str(chars.as_slice(), "sha256:") {
        let n = digest.unicode_len();
        digest.substring_char(7, n)
    } else {
        digest
    }
}

/// The (old, new) version pairs of the files that have both, in order.
pub open spec fn linked_pairs(files: Seq<FileDigest>) -> Seq<(Seq<char>, Seq<char>)>
    decreases files.len(),
{
    if files.len() == 0 {
        Seq::empty()
    } else {
        let rest = linked_pairs(files.drop_last());
        match (files.last().old, files.last().new) {
            (Some(o), Some(n)) => rest.push((o@, n@)),
            _ => rest,
        }
    }
}

/// Links each file's old and new version, as a revision took one to the other.
pub fn link_revision_files(blobs: &mut Blobs, files: &[FileDigest])
    ensures
        final(blobs).step_list() == old(blobs).step_list() + linked_pairs(files@),
        forall|x: Seq<char>| #[trigger] final(blobs).blob(x) == old(blobs).blob(x),
{
    let ghost start = blobs.step_list();
    for i in 0..files.len()
        invariant
            blobs.step_list() == start + linked_pairs(files@.take(i as int)),
            forall|x: Seq<char>| #[trigger] blobs.blob(x) == old(blobs).blob(x),
            start == old(blobs).step_list(),
    {
        proof {
            assert(files@.take(i + 1).drop_last() =~= files@.take(i as int));
            assert(files@.take(i + 1).last() == files@[i as int]);
        }
        match (&files[i].old, &files[i].new) {
            (Some(o), Some(n)) => {
                blobs.link(o.as_str(), n.as_str());
                proof {
                    assert(start + linked_pairs(files@.take(i as int)).push((o@, n@)) =~= start
                        + linked_pairs(files@.take(i as int)).push((o@, n@)));
                }
            },
            _ => {},
        }
    }
    proof {
        assert(files@.take(files@.len() as int) =~= files@);
    }
}

/// What a save adds to the bundle beyond the events.
#[derive(Default)]
pub struct Additions {
    /// A newly recorded revision's (digest, diff text).
    pub diff: Option<(String, String)>,
    /// File versions to put in the store (those already there are skipped).
    pub blobs: Vec<Vec<u8>>,
}

/// What a save does about the images (`images/`) and other attached files
/// (`attachments/`) beyond carrying them on.
#[derive(Default)]
pub struct Images<'a> {
    /// Images to put in (those already there are skipped).
    pub add: &'a [Vec<u8>],
    /// If given, the ids of the images to keep: the others are left out.
    pub keep: Option<&'a [String]>,
    /// The same for the other files attached to comments.
    pub add_files: &'a [Vec<u8>],
    pub keep_files: Option<&'a [String]>,
}

/// The entries of a bundle other than its log, settings and reactions, by
/// name, in the order they were read.
pub struct Store {
    pub entries: Vec<(String, Vec<u8>)>,
}

/// The bytes of the first entry called `name`.
pub open spec fn entry_spec(entries: Seq<(String, Vec<u8>)>, name: Seq<char>) -> Option<Seq<u8>> {
    first_blob(entries_view(entries), name)
}

/// The ids of the entries whose names start with `prefix`: the rest of
/// each name, in order.
pub open spec fn ids_spec(entries: Seq<(String, Vec<u8>)>, prefix: Seq<char>) -> Seq<Seq<char>>
    decreases entries.len(),
{
    if entries.len() == 0 {
        Seq::empty()
    } else {
        let rest = ids_spec(entries.drop_last(), prefix);
        let name = entries.last().0@;
        if has_prefix(name, prefix) {
            rest.push(name.skip(prefix.len() as int))
        } else {
            rest
        }
    }
}

/// How many entries have names that start with `prefix`, and their bytes
/// in all.
pub open spec fn stats_spec(entries: Seq<(String, Vec<u8>)>, prefix: Seq<char>) -> (nat, nat)
    decreases entries.len(),
{
    if entries.len() == 0 {
        (0, 0)
    } else {
        let rest = stats_spec(entries.drop_last(), prefix);
        if has_prefix(entries.last().0@, prefix) {
            (rest.0 + 1, rest.1 + entries.last().1@.len())
        } else {
            rest
        }
    }
}

/// The text an entry holds, if it is valid UTF-8.
pub open spec fn text_of_bytes(b: Option<Seq<u8>>) -> Option<Seq<char>> {
    match b {
        Some(b) => if vstd::utf8::valid_utf8(b) {
            Some(vstd::utf8::decode_utf8(b))
        } else {
            None
        },
        None => None,
    }
}

fn joined(a: &str, b: &str, c: &str) -> (r: String)
    ensures
        r@ == a@ + b@ + c@,
{
    let mut s = a.to_owned();
    push_str(&mut s, b);
    push_str(&mut s, c);
    s
}


/// The keep list of a save, as texts.
pub open spec fn keep_view(keep: Option<&[String]>) -> Option<Seq<Seq<char>>> {
    match keep {
        Some(k) => Some(crate::text::strings_of(k@)),
        None => None,
    }
}

/// Whether a carried entry stays: an image or attached file that a keep
/// list leaves out does not.
pub open spec fn stays(name: Seq<char>, keep: Option<Seq<Seq<char>>>, keep_files: Option<Seq<Seq<char>>>) -> bool {
    &&& match keep {
        Some(k) => has_prefix(name, "images/"@) ==> k.contains(name.skip(7)),
        None => true,
    }
    &&& match keep_files {
        Some(k) => has_prefix(name, "attachments/"@) ==> k.contains(name.skip(12)),
        None => true,
    }
}

/// The carried entries that stay, in order.
pub open spec fn kept_spec(
    entries: Seq<(Seq<char>, Seq<u8>)>,
    keep: Option<Seq<Seq<char>>>,
    keep_files: Option<Seq<Seq<char>>>,
) -> Seq<(Seq<char>, Seq<u8>)>
    decreases entries.len(),
{
    if entries.len() == 0 {
        Seq::empty()
    } else {
        let rest = kept_spec(entries.drop_last(), keep, keep_files);
        if stays(entries.last().0, keep, keep_files) {
            rest.push(entries.last())
        } else {
            rest
        }
    }
}

/// Each of `blobs` under `prefix` and the hex of its digest.
pub open spec fn named_items(prefix: Seq<char>, blobs: Seq<Vec<u8>>) -> Seq<(Seq<char>, Seq<u8>)> {
    blobs.map_values(|b: Vec<u8>| (prefix + sha256_hex(b@), b@))
}

/// The entry of a newly recorded revision's diff, if there is one.
pub open spec fn diff_items(diff: Option<(String, String)>) -> Seq<(Seq<char>, Seq<u8>)> {
    match diff {
        Some((d, text)) => seq![("diffs/"@ + component(d@) + ".diff"@, vstd::utf8::encode_utf8(text@))],
        None => Seq::empty(),
    }
}

/// What a save adds, in the order it is offered.
pub open spec fn offered(additions: Additions, images: Images) -> Seq<(Seq<char>, Seq<u8>)> {
    diff_items(additions.diff) + named_items("blobs/"@, additions.blobs@) + named_items(
        "images/"@,
        images.add@,
    ) + named_items("attachments/"@, images.add_files@)
}

/// Whether some entry of `entries` is called `name`.
pub open spec fn has_name(entries: Seq<(Seq<char>, Seq<u8>)>, name: Seq<char>) -> bool {
    exists|i: int| 0 <= i < entries.len() && #[trigger] entries[i].0 == name
}

/// `acc`, then each of `items` whose name is not taken by then.
pub open spec fn append_new(acc: Seq<(Seq<char>, Seq<u8>)>, items: Seq<(Seq<char>, Seq<u8>)>) -> Seq<
    (Seq<char>, Seq<u8>),
>
    decreases items.len(),
{
    if items.len() == 0 {
        acc
    } else {
        let next = if has_name(acc, items[0].0) {
            acc
        } else {
            acc.push(items[0])
        };
        append_new(next, items.drop_first())
    }
}

/// What a save writes after the log, settings and reactions: the carried
/// entries that stay, then each addition whose name is not written yet.
pub open spec fn plan(entries: Seq<(String, Vec<u8>)>, additions: Additions, images: Images) -> Seq<
    (Seq<char>, Seq<u8>),
> {
    append_new(
        kept_spec(entries_view(entries), keep_view(images.keep), keep_view(images.keep_files)),
        offered(additions, images),
    )
}


/// What `append_new` gives: `acc` first, then only names not there yet,
/// each once; every item's name is there in the end.
pub proof fn lemma_append_new(acc: Seq<(Seq<char>, Seq<u8>)>, items: Seq<(Seq<char>, Seq<u8>)>)
    ensures
        append_new(acc, items).len() >= acc.len(),
        append_new(acc, items).take(acc.len() as int) == acc,
        forall|k: int| 0 <= k < items.len() ==> has_name(append_new(acc, items), #[trigger] items[k].0),
        forall|i: int, j: int|
            0 <= i < j < append_new(acc, items).len() && j >= acc.len() ==> #[trigger] append_new(acc, items)[i].0
                != #[trigger] append_new(acc, items)[j].0,
    decreases items.len(),
{
    if items.len() > 0 {
        let next = if has_name(acc, items[0].0) {
            acc
        } else {
            acc.push(items[0])
        };
        lemma_append_new(next, items.drop_first());
        let r = append_new(acc, items);
        assert(r == append_new(next, items.drop_first()));
        assert(r.take(next.len() as int) == next);
        assert(r.take(acc.len() as int) =~= next.take(acc.len() as int));
        assert(next.take(acc.len() as int) =~= acc);
        // The first item's name is in `next`, hence in the result.
        if !has_name(acc, items[0].0) {
            assert(next[acc.len() as int] == items[0]);
        } else {
            let w0 = choose|w: int| 0 <= w < acc.len() && #[trigger] acc[w].0 == items[0].0;
            assert(next[w0] == acc[w0]);
        }
        assert(has_name(next, items[0].0));
        let w = choose|w: int| 0 <= w < next.len() && #[trigger] next[w].0 == items[0].0;
        assert(r[w] == r.take(next.len() as int)[w]);
        assert(has_name(r, items[0].0));
        assert forall|k: int| 0 <= k < items.len() implies has_name(r, #[trigger] items[k].0) by {
            if k > 0 {
                assert(items[k] == items.drop_first()[k - 1]);
            }
        }
        assert forall|i: int, j: int| 0 <= i < j < r.len() && j >= acc.len() implies #[trigger] r[i].0 != #[trigger] r[j].0 by {
            if j >= next.len() {
            } else {
                // j is the one item `next` added: its name was nowhere in `acc`.
                assert(j == acc.len());
                assert(!has_name(acc, items[0].0));
                assert(r[j] == next[j]);
                assert(r[i] == next[i]);
                assert(next[i] == acc[i]);
                if r[i].0 == r[j].0 {
                    assert(acc[i].0 == items[0].0);
                }
            }
        }
    }
}

/// A save writes each file version, image and attached file it is given,
/// whatever else it is given or the bundle holds, and none twice: every
/// offered entry is written, the carried entries that stay come first, and
/// no name the save adds is written twice or over one it carries.
pub proof fn lemma_each_addition_written_once(entries: Seq<(String, Vec<u8>)>, additions: Additions, images: Images)
    ensures
        ({
            let p = plan(entries, additions, images);
            let kept = kept_spec(entries_view(entries), keep_view(images.keep), keep_view(images.keep_files));
            &&& p.take(kept.len() as int) == kept
            &&& forall|k: int| 0 <= k < offered(additions, images).len() ==> has_name(p, #[trigger] offered(additions, images)[k].0)
            &&& forall|i: int, j: int| 0 <= i < j < p.len() && j >= kept.len() ==> #[trigger] p[i].0 != #[trigger] p[j].0
        }),
{
    lemma_append_new(
        kept_spec(entries_view(entries), keep_view(images.keep), keep_view(images.keep_files)),
        offered(additions, images),
    );
}

pub fn copy_bytes(b: &[u8]) -> (r: Vec<u8>)
    ensures
        r@ == b@,
{
    let mut out: Vec<u8> = Vec::new();
    for i in 0..b.len()
        invariant
            out@ == b@.take(i as int),
    {
        out.push(b[i]);
        proof {
            assert(out@ =~= b@.take(i + 1));
        }
    }
    proof {
        assert(b@.take(b@.len() as int) =~= b@);
    }
    out
}

fn listed(list: &[String], id: &str) -> (r: bool)
    ensures
        r == crate::text::strings_of(list@).contains(id@),
{
    let key = id.to_owned();
    for i in 0..list.len()
        invariant
            key@ == id@,
            forall|j: int| 0 <= j < i ==> list@[j]@ != id@,
    {
        if crate::text::same_string(&list[i], &key) {
            proof {
                assert(crate::text::strings_of(list@)[i as int] == id@);
            }
            return true;
        }
    }
    proof {
        if crate::text::strings_of(list@).contains(id@) {
            let j = choose|j: int| 0 <= j < list@.len() && crate::text::strings_of(list@)[j] == id@;
            assert(list@[j]@ == id@);
        }
    }
    false
}

fn stays_exec(name: &str, keep: Option<&[String]>, keep_files: Option<&[String]>) -> (r: bool)
    ensures
        r == stays(name@, keep_view(keep), keep_view(keep_files)),
{
    proof {
        reveal_strlit("images/");
        reveal_strlit("attachments/");
    }
    let chars = chars_of(name);
    let n = name.unicode_len();
    if let Some(k) = keep {
        if starts_with_str(chars.as_slice(), "images/") && !listed(k, name.substring_char(7, n)) {
            return false;
        }
    }
    if let Some(k) = keep_files {
        if starts_with_str(chars.as_slice(), "attachments/") && !listed(k, name.substring_char(12, n)) {
            return false;
        }
    }
    true
}

fn taken(entries: &Vec<(String, Vec<u8>)>, name: &String) -> (r: bool)
    ensures
        r == has_name(entries_view(entries@), name@),
{
    let ghost es = entries_view(entries@);
    for i in 0..entries.len()
        invariant
            es == entries_view(entries@),
            forall|j: int| 0 <= j < i ==> es[j].0 != name@,
    {
        if crate::text::same_string(&entries[i].0, name) {
            proof {
                assert(es[i as int].0 == name@);
            }
            return true;
        }
    }
    false
}

fn push_named(items: &mut Vec<(String, Vec<u8>)>, prefix: &str, blobs: &[Vec<u8>])
    ensures
        entries_view(final(items)@) == entries_view(old(items)@) + named_items(prefix@, blobs@),
{
    let ghost start = entries_view(items@);
    for i in 0..blobs.len()
        invariant
            entries_view(items@) == start + named_items(prefix@, blobs@.take(i as int)),
    {
        let d = digest(blobs[i].as_slice());
        proof {
            reveal_strlit("sha256:");
            assert(d@.take(7) =~= "sha256:"@);
            assert(has_prefix(d@, "sha256:"@));
            assert(component(d@) =~= sha256_hex(blobs@[i as int]@));
        }
        let name = joined(prefix, digest_path_component(d.as_str()), "");
        let ghost before = entries_view(items@);
        items.push((name, copy_bytes(blobs[i].as_slice())));
        proof {
            reveal_strlit("");
            assert(named_items(prefix@, blobs@.take(i + 1)) =~= named_items(prefix@, blobs@.take(i as int)).push(
                (prefix@ + sha256_hex(blobs@[i as int]@), blobs@[i as int]@),
            ));
            assert(entries_view(items@) =~= before.push((prefix@ + sha256_hex(blobs@[i as int]@), blobs@[i as int]@)));
        }
    }
    proof {
        assert(blobs@.take(blobs@.len() as int) =~= blobs@);
    }
}

impl Store {

    /// What a save writes after the log, settings and reactions: the
    /// entries that stay, then the additions not held already.
    pub fn entries_to_write(&self, additions: &Additions, images: &Images) -> (r: Vec<(String, Vec<u8>)>)
        ensures
            entries_view(r@) == plan(self.entries@, *additions, *images),
    {
        let ghost kv = keep_view(images.keep);
        let ghost kf = keep_view(images.keep_files);
        let mut out: Vec<(String, Vec<u8>)> = Vec::new();
        for i in 0..self.entries.len()
            invariant
                kv == keep_view(images.keep),
                kf == keep_view(images.keep_files),
                entries_view(out@) == kept_spec(entries_view(self.entries@.take(i as int)), kv, kf),
        {
            proof {
                assert(entries_view(self.entries@.take(i + 1)).drop_last() =~= entries_view(
                    self.entries@.take(i as int),
                ));
                assert(entries_view(self.entries@.take(i + 1)).last() == (
                    self.entries@[i as int].0@,
                    self.entries@[i as int].1@,
                ));
            }
            if stays_exec(self.entries[i].0.as_str(), images.keep, images.keep_files) {
                let ghost before = entries_view(out@);
                out.push((copy_string(&self.entries[i].0), copy_bytes(self.entries[i].1.as_slice())));
                proof {
                    assert(entries_view(out@) =~= before.push(
                        (self.entries@[i as int].0@, self.entries@[i as int].1@),
                    ));
                }
            }
        }
        proof {
            assert(self.entries@.take(self.entries@.len() as int) =~= self.entries@);
        }
        let mut items: Vec<(String, Vec<u8>)> = Vec::new();
        if let Some((d, text)) = &additions.diff {
            let name = joined("diffs/", digest_path_component(d.as_str()), ".diff");
            items.push((name, copy_bytes(text.as_str().as_bytes())));
            proof {
                assert(entries_view(items@) =~= diff_items(additions.diff));
            }
        } else {
            proof {
                assert(entries_view(items@) =~= diff_items(additions.diff));
            }
        }
        push_named(&mut items, "blobs/", additions.blobs.as_slice());
        push_named(&mut items, "images/", images.add);
        push_named(&mut items, "attachments/", images.add_files);
        let ghost all = entries_view(items@);
        assert(all == offered(*additions, *images));
        let ghost acc0 = entries_view(out@);
        assert(all.skip(0) =~= all);
        for j in 0..items.len()
            invariant
                all == entries_view(items@),
                append_new(acc0, all) == append_new(entries_view(out@), all.skip(j as int)),
        {
            proof {
                assert(all.skip(j as int).drop_first() =~= all.skip(j + 1));
                assert(all.skip(j as int)[0] == all[j as int]);
            }
            if !taken(&out, &items[j].0) {
                let ghost before = entries_view(out@);
                out.push((copy_string(&items[j].0), copy_bytes(items[j].1.as_slice())));
                proof {
                    assert(entries_view(out@) =~= before.push(all[j as int]));
                }
            }
        }
        proof {
            assert(all.skip(all.len() as int).len() == 0);
        }
        out
    }
    /// The bytes of the entry called `name`.
    pub fn entry(&self, name: &str) -> (r: Option<&[u8]>)
        ensures
            match r {
                Some(b) => entry_spec(self.entries@, name@) == Some(b@),
                None => entry_spec(self.entries@, name@) is None,
            },
    {
        let ghost es = entries_view(self.entries@);
        let key = name.to_owned();
        for k in 0..self.entries.len()
            invariant
                es == entries_view(self.entries@),
                key@ == name@,
                forall|j: int| 0 <= j < k ==> es[j].0 != name@,
        {
            if crate::text::same_string(&self.entries[k].0, &key) {
                proof {
                    lemma_first_blob_at(es, name@, k as int);
                }
                return Some(self.entries[k].1.as_slice());
            }
        }
        proof {
            lemma_first_blob_none(es, name@);
        }
        None
    }

    /// The bytes of an image of the bundle.
    pub fn image(&self, id: &str) -> (r: Option<&[u8]>)
        ensures
            match r {
                Some(b) => entry_spec(self.entries@, "images/"@ + id@) == Some(b@),
                None => entry_spec(self.entries@, "images/"@ + id@) is None,
            },
    {
        let name = joined("images/", id, "");
        proof {
            reveal_strlit("");
            assert(name@ =~= "images/"@ + id@);
        }
        self.entry(name.as_str())
    }

    /// The bytes of a file attached to a comment (not an image).
    pub fn attachment(&self, id: &str) -> (r: Option<&[u8]>)
        ensures
            match r {
                Some(b) => entry_spec(self.entries@, "attachments/"@ + id@) == Some(b@),
                None => entry_spec(self.entries@, "attachments/"@ + id@) is None,
            },
    {
        let name = joined("attachments/", id, "");
        proof {
            reveal_strlit("");
            assert(name@ =~= "attachments/"@ + id@);
        }
        self.entry(name.as_str())
    }

    /// The stored bytes of the file version with this digest.
    pub fn blob(&self, digest: &str) -> (r: Option<&[u8]>)
        ensures
            match r {
                Some(b) => entry_spec(self.entries@, "blobs/"@ + component(digest@)) == Some(b@),
                None => entry_spec(self.entries@, "blobs/"@ + component(digest@)) is None,
            },
    {
        let name = joined("blobs/", digest_path_component(digest), "");
        proof {
            reveal_strlit("");
            assert(name@ =~= "blobs/"@ + component(digest@));
        }
        self.entry(name.as_str())
    }

    /// The diff text stored for the revision with this digest, if it has one
    /// and it is valid UTF-8.
    pub fn revision_diff(&self, digest: &str) -> (r: Option<String>)
        ensures
            crate::text::opt_view(r) == text_of_bytes(
                entry_spec(self.entries@, "diffs/"@ + component(digest@) + ".diff"@),
            ),
    {
        let name = joined("diffs/", digest_path_component(digest), ".diff");
        match self.entry(name.as_str()) {
            Some(bytes) => match utf8_text(bytes) {
                Some(text) => Some(text.to_owned()),
                None => None,
            },
            None => None,
        }
    }

    /// The ids of the entries under `prefix`.
    pub fn ids(&self, prefix: &str) -> (r: Vec<String>)
        ensures
            crate::text::strings_of(r@) == ids_spec(self.entries@, prefix@),
    {
        let mut out: Vec<String> = Vec::new();
        let p = chars_of(prefix);
        let n = prefix.unicode_len();
        for i in 0..self.entries.len()
            invariant
                p@ == prefix@,
                n == prefix@.len(),
                crate::text::strings_of(out@) == ids_spec(self.entries@.take(i as int), prefix@),
        {
            proof {
                assert(self.entries@.take(i + 1).drop_last() =~= self.entries@.take(i as int));
                assert(self.entries@.take(i + 1).last() == self.entries@[i as int]);
            }
            let name = self.entries[i].0.as_str();
            let chars = chars_of(name);
            if crate::text::starts_with(chars.as_slice(), p.as_slice()) {
                let len = name.unicode_len();
                let id = name.substring_char(n, len);
                let ghost before = out@;
                out.push(id.to_owned());
                proof {
                    assert(crate::text::strings_of(out@) =~= crate::text::strings_of(before).push(
                        id@,
                    ));
                }
            }
        }
        proof {
            assert(self.entries@.take(self.entries@.len() as int) =~= self.entries@);
        }
        out
    }

    /// The ids (hex digests) of the images the bundle holds.
    pub fn image_ids(&self) -> (r: Vec<String>)
        ensures
            crate::text::strings_of(r@) == ids_spec(self.entries@, "images/"@),
    {
        self.ids("images/")
    }

    /// The ids of the other files attached to comments.
    pub fn attachment_ids(&self) -> (r: Vec<String>)
        ensures
            crate::text::strings_of(r@) == ids_spec(self.entries@, "attachments/"@),
    {
        self.ids("attachments/")
    }

    /// How many entries are under `prefix`, and how many bytes they are.
    pub fn stats(&self, prefix: &str) -> (r: (usize, u64))
        requires
            stats_spec(self.entries@, prefix@).1 <= u64::MAX,
        ensures
            r.0 == stats_spec(self.entries@, prefix@).0,
            r.1 == stats_spec(self.entries@, prefix@).1,
    {
        let mut count: usize = 0;
        let mut bytes: u64 = 0;
        let p = chars_of(prefix);
        for i in 0..self.entries.len()
            invariant
                p@ == prefix@,
                count == stats_spec(self.entries@.take(i as int), prefix@).0,
                bytes == stats_spec(self.entries@.take(i as int), prefix@).1,
                count <= i,
                stats_spec(self.entries@, prefix@).1 <= u64::MAX,
        {
            proof {
                assert(self.entries@.take(i + 1).drop_last() =~= self.entries@.take(i as int));
                assert(self.entries@.take(i + 1).last() == self.entries@[i as int]);
                lemma_stats_prefix(self.entries@, prefix@, i + 1);
            }
            let chars = chars_of(self.entries[i].0.as_str());
            if crate::text::starts_with(chars.as_slice(), p.as_slice()) {
                count = count + 1;
                bytes = bytes + self.entries[i].1.len() as u64;
            }
        }
        proof {
            assert(self.entries@.take(self.entries@.len() as int) =~= self.entries@);
        }
        (count, bytes)
    }

    /// How many images the bundle holds, and how many bytes they are.
    pub fn image_stats(&self) -> (r: (usize, u64))
        requires
            stats_spec(self.entries@, "images/"@).1 <= u64::MAX,
        ensures
            r.0 == stats_spec(self.entries@, "images/"@).0,
            r.1 == stats_spec(self.entries@, "images/"@).1,
    {
        self.stats("images/")
    }

    /// The same for the other attached files.
    pub fn attachment_stats(&self) -> (r: (usize, u64))
        requires
            stats_spec(self.entries@, "attachments/"@).1 <= u64::MAX,
        ensures
            r.0 == stats_spec(self.entries@, "attachments/"@).0,
            r.1 == stats_spec(self.entries@, "attachments/"@).1,
    {
        self.stats("attachments/")
    }
}

/// The bytes under `prefix` in the first `k` entries are no more than in all
/// of them.
pub proof fn lemma_stats_prefix(entries: Seq<(String, Vec<u8>)>, prefix: Seq<char>, k: int)
    requires
        0 <= k <= entries.len(),
    ensures
        stats_spec(entries.take(k), prefix).1 <= stats_spec(entries, prefix).1,
    decreases entries.len(),
{
    if k < entries.len() {
        assert(entries.drop_last().take(k) =~= entries.take(k));
        lemma_stats_prefix(entries.drop_last(), prefix, k);
    } else {
        assert(entries.take(k) =~= entries);
    }
}

// ---- what the log says of the revisions --------------------------------------------------

/// The revisions the log records, oldest first.
pub open spec fn revisions_spec(events: Seq<Event>) -> Seq<Revision>
    decreases events.len(),
{
    if events.len() == 0 {
        Seq::empty()
    } else {
        let rest = revisions_spec(events.drop_last());
        match events.last() {
            Event::Revision(r) => rest.push(r),
            _ => rest,
        }
    }
}

/// The revisions the log records, oldest first.
pub fn revisions(events: &[Event]) -> (r: Vec<&Revision>)
    ensures
        r@.map_values(|x: &Revision| *x) == revisions_spec(events@),
{
    let mut out: Vec<&Revision> = Vec::new();
    for i in 0..events.len()
        invariant
            out@.map_values(|x: &Revision| *x) == revisions_spec(events@.take(i as int)),
    {
        proof {
            assert(events@.take(i + 1).drop_last() =~= events@.take(i as int));
            assert(events@.take(i + 1).last() == events@[i as int]);
        }
        match &events[i] {
            Event::Revision(r) => {
                let ghost before = out@;
                out.push(r);
                proof {
                    assert(out@.map_values(|x: &Revision| *x) =~= before.map_values(|x: &Revision| *x).push(*r));
                }
            },
            _ => {},
        }
    }
    proof {
        assert(events@.take(events@.len() as int) =~= events@);
    }
    out
}

/// The most recently recorded revision, if any.
pub fn latest_revision(events: &[Event]) -> (r: Option<&Revision>)
    ensures
        match r {
            Some(x) => revisions_spec(events@).len() > 0 && *x == revisions_spec(events@).last(),
            None => revisions_spec(events@).len() == 0,
        },
{
    let all = revisions(events);
    if all.len() == 0 {
        None
    } else {
        proof {
            assert(all@.map_values(|x: &Revision| *x)[all@.len() - 1] == *all@[all@.len() - 1]);
        }
        Some(all[all.len() - 1])
    }
}

/// The first recorded revision (its source and snapshot mode are the
/// bundle's), if any.
pub fn first_revision(events: &[Event]) -> (r: Option<&Revision>)
    ensures
        match r {
            Some(x) => revisions_spec(events@).len() > 0 && *x == revisions_spec(events@)[0],
            None => revisions_spec(events@).len() == 0,
        },
{
    let all = revisions(events);
    if all.len() == 0 {
        None
    } else {
        proof {
            assert(all@.map_values(|x: &Revision| *x)[0] == *all@[0]);
        }
        Some(all[0])
    }
}

/// Whether a revision with this digest has been recorded.
pub fn has_revision(events: &[Event], digest: &str) -> (r: bool)
    ensures
        r == exists|i: int| 0 <= i < revisions_spec(events@).len() && #[trigger] revisions_spec(events@)[i].digest@ == digest@,
{
    let all = revisions(events);
    let ghost rs = revisions_spec(events@);
    let key = digest.to_owned();
    for i in 0..all.len()
        invariant
            rs == revisions_spec(events@),
            all@.map_values(|x: &Revision| *x) == rs,
            key@ == digest@,
            forall|j: int| 0 <= j < i ==> (#[trigger] rs[j]).digest@ != digest@,
    {
        proof {
            assert(rs[i as int] == *all@[i as int]);
        }
        if crate::text::same_string(&all[i].digest, &key) {
            return true;
        }
    }
    false
}

/// A head tree as (path, digest) pairs.
pub open spec fn tree_view(t: Seq<TreeFile>) -> Seq<(Seq<char>, Seq<char>)> {
    t.map_values(|f: TreeFile| (f.path@, f.digest@))
}

/// The first place of `tree` with `path`.
pub open spec fn path_index(tree: Seq<(Seq<char>, Seq<char>)>, path: Seq<char>) -> Option<int>
    decreases tree.len(),
{
    if tree.len() == 0 {
        None
    } else if tree[0].0 == path {
        Some(0)
    } else {
        match path_index(tree.drop_first(), path) {
            Some(k) => Some(k + 1),
            None => None,
        }
    }
}

/// `tree` with one pinned file: its digest where the path is (the first
/// place), else added at the end.
pub open spec fn pin_one(tree: Seq<(Seq<char>, Seq<char>)>, f: (Seq<char>, Seq<char>)) -> Seq<(Seq<char>, Seq<char>)> {
    match path_index(tree, f.0) {
        Some(k) => tree.update(k, (tree[k].0, f.1)),
        None => tree.push(f),
    }
}

pub open spec fn pin_all(tree: Seq<(Seq<char>, Seq<char>)>, files: Seq<(Seq<char>, Seq<char>)>) -> Seq<(Seq<char>, Seq<char>)>
    decreases files.len(),
{
    if files.len() == 0 {
        tree
    } else {
        pin_one(pin_all(tree, files.drop_last()), files.last())
    }
}

/// The head tree revision `id` recorded, `tree`, with every `Pin` of it in
/// the log since applied in order.
pub open spec fn manifest_spec(tree: Seq<(Seq<char>, Seq<char>)>, events: Seq<Event>, id: u128) -> Seq<(Seq<char>, Seq<char>)>
    decreases events.len(),
{
    if events.len() == 0 {
        tree
    } else {
        let rest = manifest_spec(tree, events.drop_last(), id);
        match events.last() {
            Event::Pin { revision, files } => if revision == id {
                pin_all(rest, tree_view(files@))
            } else {
                rest
            },
            _ => rest,
        }
    }
}

pub proof fn lemma_path_index(tree: Seq<(Seq<char>, Seq<char>)>, path: Seq<char>)
    ensures
        match path_index(tree, path) {
            Some(k) => 0 <= k < tree.len() && tree[k].0 == path && forall|j: int| 0 <= j < k ==> tree[j].0 != path,
            None => forall|j: int| 0 <= j < tree.len() ==> tree[j].0 != path,
        },
    decreases tree.len(),
{
    if tree.len() > 0 {
        lemma_path_index(tree.drop_first(), path);
        if tree[0].0 != path {
            assert forall|j: int| 1 <= j < tree.len() implies tree[j] == tree.drop_first()[j - 1] by {}
        }
    }
}

fn pin_file(out: &mut Vec<TreeFile>, f: &TreeFile)
    ensures
        tree_view(final(out)@) == pin_one(tree_view(old(out)@), (f.path@, f.digest@)),
{
    let ghost tv = tree_view(out@);
    proof {
        lemma_path_index(tv, f.path@);
    }
    let n = out.len();
    let mut k: usize = 0;
    while k < n
        invariant
            tv == tree_view(out@),
            *out == *old(out),
            n == out@.len(),
            k <= n,
            forall|j: int| 0 <= j < k ==> tv[j].0 != f.path@,
        decreases n - k,
    {
        if crate::text::same_string(&out[k].path, &f.path) {
            proof {
                assert(tv[k as int].0 == f.path@);
                lemma_path_index(tv, f.path@);
                assert(path_index(tv, f.path@) == Some(k as int));
            }
            let path = copy_string(&out[k].path);
            out.set(k, TreeFile { path, digest: copy_string(&f.digest) });
            proof {
                assert(tree_view(out@) =~= tv.update(k as int, (tv[k as int].0, f.digest@)));
            }
            return;
        }
        k = k + 1;
    }
    let ghost before = out@;
    out.push(TreeFile { path: copy_string(&f.path), digest: copy_string(&f.digest) });
    proof {
        assert(tree_view(out@) =~= tree_view(before).push((f.path@, f.digest@)));
    }
}

/// The head tree `revision` recorded: its own tree plus every `Pin` of it
/// since (a later entry for a path replaces an earlier one).
pub fn manifest(events: &[Event], revision: &Revision) -> (r: Vec<TreeFile>)
    ensures
        tree_view(r@) == manifest_spec(tree_view(revision.tree@), events@, revision.id),
{
    let mut out: Vec<TreeFile> = Vec::new();
    for i in 0..revision.tree.len()
        invariant
            tree_view(out@) == tree_view(revision.tree@).take(i as int),
    {
        let ghost before = out@;
        out.push(TreeFile { path: copy_string(&revision.tree[i].path), digest: copy_string(&revision.tree[i].digest) });
        proof {
            assert(tree_view(out@) =~= tree_view(before).push((revision.tree@[i as int].path@, revision.tree@[i as int].digest@)));
            assert(tree_view(revision.tree@).take(i + 1) =~= tree_view(revision.tree@).take(i as int).push(
                (revision.tree@[i as int].path@, revision.tree@[i as int].digest@),
            ));
        }
    }
    proof {
        assert(tree_view(revision.tree@).take(revision.tree@.len() as int) =~= tree_view(revision.tree@));
    }
    let ghost base = tree_view(revision.tree@);
    for i in 0..events.len()
        invariant
            base == tree_view(revision.tree@),
            tree_view(out@) == manifest_spec(base, events@.take(i as int), revision.id),
    {
        proof {
            assert(events@.take(i + 1).drop_last() =~= events@.take(i as int));
            assert(events@.take(i + 1).last() == events@[i as int]);
        }
        match &events[i] {
            Event::Pin { revision: id, files } => {
                if *id == revision.id {
                    let ghost start = tree_view(out@);
                    for k in 0..files.len()
                        invariant
                            tree_view(out@) == pin_all(start, tree_view(files@).take(k as int)),
                    {
                        proof {
                            assert(tree_view(files@).take(k + 1).drop_last() =~= tree_view(files@).take(k as int));
                            assert(tree_view(files@).take(k + 1).last() == (files@[k as int].path@, files@[k as int].digest@));
                        }
                        pin_file(&mut out, &files[k]);
                    }
                    proof {
                        assert(tree_view(files@).take(files@.len() as int) =~= tree_view(files@));
                    }
                }
            },
            _ => {},
        }
    }
    proof {
        assert(events@.take(events@.len() as int) =~= events@);
    }
    out
}

/// The files of a head tree whose bytes the store holds, with their bytes.
pub open spec fn held_files(tree: Seq<(Seq<char>, Seq<char>)>, entries: Seq<(String, Vec<u8>)>) -> Seq<(Seq<char>, Seq<u8>)>
    decreases tree.len(),
{
    if tree.len() == 0 {
        Seq::empty()
    } else {
        let rest = held_files(tree.drop_last(), entries);
        match entry_spec(entries, "blobs/"@ + component(tree.last().1)) {
            Some(b) => rest.push((tree.last().0, b)),
            None => rest,
        }
    }
}

impl Store {
    /// The contents of the head tree `revision` recorded (with its pins),
    /// for every file whose bytes the store holds.
    pub fn tree_of(&self, events: &[Event], revision: &Revision) -> (r: crate::files::Tree)
        ensures
            r.wf(),
            forall|p: Seq<char>| #[trigger] r.get_spec(p) == crate::files::last_for(
                held_files(manifest_spec(tree_view(revision.tree@), events@, revision.id), self.entries@),
                p,
            ),
    {
        let m = manifest(events, revision);
        let ghost mv = tree_view(m@);
        let mut held: Vec<(String, Vec<u8>)> = Vec::new();
        for i in 0..m.len()
            invariant
                mv == tree_view(m@),
                entries_view(held@) == held_files(mv.take(i as int), self.entries@),
        {
            proof {
                assert(mv.take(i + 1).drop_last() =~= mv.take(i as int));
                assert(mv.take(i + 1).last() == (m@[i as int].path@, m@[i as int].digest@));
            }
            match self.blob(m[i].digest.as_str()) {
                Some(b) => {
                    let ghost before = held@;
                    held.push((copy_string(&m[i].path), copy_bytes(b)));
                    proof {
                        assert(entries_view(held@) =~= entries_view(before).push((m@[i as int].path@, b@)));
                    }
                },
                None => {},
            }
        }
        proof {
            assert(mv.take(mv.len() as int) =~= mv);
        }
        crate::files::Tree::from_entries(held)
    }
}

/// Whether an event is one of the two ways a setting was once kept: the
/// title, and whether white space is ignored.
pub open spec fn is_old_setting(e: Event) -> bool {
    e is Title || e is IgnoreWhitespace
}

pub open spec fn not_old_setting() -> spec_fn(Event) -> bool {
    |e: Event| !is_old_setting(e)
}

/// The title the old events leave: that of the last `Title` event, trimmed,
/// and none where that is blank or there is none.
pub open spec fn old_title(events: Seq<Event>) -> Option<Seq<char>>
    decreases events.len(),
{
    if events.len() == 0 {
        None
    } else {
        match events.last() {
            Event::Title { title, .. } => if trim(title@).len() > 0 {
                Some(trim(title@))
            } else {
                None
            },
            _ => old_title(events.drop_last()),
        }
    }
}

/// Whether white space is ignored by the old events: what the last
/// `IgnoreWhitespace` event says, and not where there is none.
pub open spec fn old_ignore(events: Seq<Event>) -> bool
    decreases events.len(),
{
    if events.len() == 0 {
        false
    } else {
        match events.last() {
            Event::IgnoreWhitespace { value, .. } => value,
            _ => old_ignore(events.drop_last()),
        }
    }
}

/// Takes the old setting events out of the log, and gives the settings they
/// leave (the other settings at their defaults). A bundle made before the
/// settings were state has them; the caller lays what `settings.json` says
/// over the result.
pub fn old_settings(events: &mut Vec<Event>) -> (r: Settings)
    ensures
        final(events)@ == old(events)@.filter(not_old_setting()),
        crate::text::opt_view(r.title) == old_title(old(events)@),
        r.ignore_whitespace == old_ignore(old(events)@),
        r.attachment_limit == DEFAULT_ATTACHMENT_LIMIT,
{
    let mut all: Vec<Event> = Vec::new();
    std::mem::swap(&mut all, events);
    let ghost given = all@;
    let mut title: Option<String> = None;
    let mut ignore = false;
    assert(given.take(0) =~= Seq::<Event>::empty());
    proof {
        reveal(Seq::filter);
    }
    for e in it: all
        invariant
            given == old(events)@,
            it.seq() == given,
            events@ == given.take(it.index() as int).filter(not_old_setting()),
            crate::text::opt_view(title) == old_title(given.take(it.index() as int)),
            ignore == old_ignore(given.take(it.index() as int)),
    {
        let ghost k = it.index() as int;
        proof {
            reveal(Seq::filter);
            assert(given.take(k + 1).drop_last() == given.take(k));
            assert(given.take(k + 1).last() == given[k]);
        }
        match e {
            Event::Title { title: t, .. } => {
                let bare = trimmed(chars_of(t.as_str()).as_slice());
                title = if bare.len() > 0 {
                    Some(string_of(bare.as_slice()))
                } else {
                    None
                };
            },
            Event::IgnoreWhitespace { value, .. } => {
                ignore = value;
            },
            other => {
                events.push(other);
            },
        }
    }
    assert(given.take(given.len() as int) == given);
    Settings { attachment_limit: DEFAULT_ATTACHMENT_LIMIT, title, ignore_whitespace: ignore }
}

} // verus!
