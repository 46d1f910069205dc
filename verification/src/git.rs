//! What git's output says, for the git provider: whether a text is an object
//! id, and the entries of a commit's tree as `git ls-tree -r -l -z` lists
//! them.

use crate::diff::{first_word, next_word};
use crate::text::{
    all_digits, chars_of, digits_value, first_index, is_digit, lemma_digits_value_nonneg, lemma_first_index,
    lemma_prefix_value_bound, slice_of, string_of, unsigned_part, lines_seq, lemma_lines_seq_push, same_chars,
    trim_end, trim_end_at,
};
use crate::model::{CommitFile, CommitInfo};
use vstd::prelude::*;

verus! {

/// One entry of a commit's tree (blobs only).
#[derive(Debug, Clone, PartialEq, Eq)]
pub struct TreeEntry {
    pub path: String,
    pub oid: String,
    pub size: u64,
}

pub open spec fn is_hex_digit(c: char) -> bool {
    ('0' <= c && c <= '9') || ('a' <= c && c <= 'f') || ('A' <= c && c <= 'F')
}

/// An object id: 40 (SHA-1) or 64 (SHA-256) hex digits.
pub open spec fn object_id_spec(s: Seq<char>) -> bool {
    (s.len() == 40 || s.len() == 64) && forall|i: int| 0 <= i < s.len() ==> is_hex_digit(#[trigger] s[i])
}

pub fn is_object_id(s: &str) -> (r: bool)
    ensures
        r == object_id_spec(s@),
{
    let cs = chars_of(s);
    if cs.len() != 40 && cs.len() != 64 {
        return false;
    }
    for i in 0..cs.len()
        invariant
            cs@ == s@,
            forall|j: int| 0 <= j < i ==> is_hex_digit(#[trigger] s@[j]),
    {
        let c = cs[i];
        if !(('0' <= c && c <= '9') || ('a' <= c && c <= 'f') || ('A' <= c && c <= 'F')) {
            proof {
                assert(!is_hex_digit(s@[i as int]));
            }
            return false;
        }
    }
    true
}

/// What `str::parse::<u64>` makes of `s`: an optional `+`, then at least one
/// digit, and a value that fits.
pub open spec fn parse_u64(s: Seq<char>) -> Option<u64> {
    let d = unsigned_part(s);
    if d.len() > 0 && all_digits(d) && digits_value(d) <= u64::MAX {
        Some(digits_value(d) as u64)
    } else {
        None
    }
}

/// `s.parse::<u64>()` (see [`parse_u64`]).
pub fn parse_u64_exec(s: &[char]) -> (r: Option<u64>)
    ensures
        r == parse_u64(s@),
{
    let start: usize = if s.len() > 0 && s[0] == '+' {
        1
    } else {
        0
    };
    let ghost d = unsigned_part(s@);
    assert(d == s@.skip(start as int));
    if start >= s.len() {
        return None;
    }
    let mut v: u128 = 0;
    let mut i = start;
    while i < s.len()
        invariant
            start <= i <= s@.len(),
            start <= 1,
            d == s@.skip(start as int),
            d == unsigned_part(s@),
            forall|j: int| start <= j < i ==> is_digit(#[trigger] s@[j]),
            v == digits_value(s@.subrange(start as int, i as int)),
            v <= u64::MAX,
        decreases s.len() - i,
    {
        let c = s[i];
        if !('0' <= c && c <= '9') {
            proof {
                assert(d[i - start] == c);
                assert(!all_digits(d));
            }
            return None;
        }
        let ghost prev = s@.subrange(start as int, i as int);
        let ghost next = s@.subrange(start as int, i + 1);
        assert(next.drop_last() == prev);
        assert(next.last() == c);
        let dv = (c as u32 - '0' as u32) as u128;
        let nv = v * 10 + dv;
        assert(nv == digits_value(next));
        if nv > u64::MAX as u128 {
            proof {
                assert(d.take(i + 1 - start) == next);
                if all_digits(d) {
                    lemma_prefix_value_bound(d, i + 1 - start);
                    assert(digits_value(d) > u64::MAX);
                }
            }
            return None;
        }
        v = nv;
        i += 1;
    }
    assert(s@.subrange(start as int, i as int) == d);
    Some(v as u64)
}

/// A record of `git ls-tree -r -l`: `<mode> <type> <oid> <size>`, a tab,
/// and the path. Only blobs with a size are entries (a submodule is a
/// `commit` without one): (path, oid, size).
pub open spec fn tree_entry_spec(record: Seq<char>) -> Option<(Seq<char>, Seq<char>, u64)> {
    let k = first_index(record, '\t');
    if k >= record.len() {
        None
    } else {
        let meta = record.take(k);
        let path = record.skip(k + 1);
        match first_word(meta) {
            None => None,
            Some((_, r1)) => match first_word(r1) {
                None => None,
                Some((kind, r2)) => if kind != "blob"@ {
                    None
                } else {
                    match first_word(r2) {
                        None => None,
                        Some((oid, r3)) => match first_word(r3) {
                            None => None,
                            Some((size, _)) => match parse_u64(size) {
                                Some(n) => Some((path, oid, n)),
                                None => None,
                            },
                        },
                    }
                },
            },
        }
    }
}

/// The entry a record of a commit's tree listing describes, if it is a blob.
pub fn tree_entry_of(record: &str) -> (r: Option<TreeEntry>)
    ensures
        match r {
            Some(e) => tree_entry_spec(record@) == Some((e.path@, e.oid@, e.size)),
            None => tree_entry_spec(record@) is None,
        },
{
    let cs = chars_of(record);
    proof {
        lemma_first_index(record@, '\t');
        assert(record@.skip(0) =~= record@);
    }
    let k = crate::text::find_char(cs.as_slice(), 0, '\t');
    if k >= cs.len() {
        return None;
    }
    let meta = slice_of(cs.as_slice(), 0, k);
    let path = slice_of(cs.as_slice(), k + 1, cs.len());
    let (_, b1) = match next_word(meta.as_slice()) {
        Some(w) => w,
        None => {
            return None;
        },
    };
    let r1 = slice_of(meta.as_slice(), b1, meta.len());
    let (a2, b2) = match next_word(r1.as_slice()) {
        Some(w) => w,
        None => {
            return None;
        },
    };
    let kind = slice_of(r1.as_slice(), a2, b2);
    proof {
        reveal_strlit("blob");
    }
    if !crate::text::is_str(kind.as_slice(), "blob") {
        return None;
    }
    let r2 = slice_of(r1.as_slice(), b2, r1.len());
    let (a3, b3) = match next_word(r2.as_slice()) {
        Some(w) => w,
        None => {
            return None;
        },
    };
    let oid = slice_of(r2.as_slice(), a3, b3);
    let r3 = slice_of(r2.as_slice(), b3, r2.len());
    let (a4, b4) = match next_word(r3.as_slice()) {
        Some(w) => w,
        None => {
            return None;
        },
    };
    let size = slice_of(r3.as_slice(), a4, b4);
    match parse_u64_exec(size.as_slice()) {
        Some(n) => Some(TreeEntry { path: string_of(path.as_slice()), oid: string_of(oid.as_slice()), size: n }),
        None => None,
    }
}

// ---- the commits of a range, as `git log` tells them ---------------------------------

/// `s` cut at each `sep`, as `str::split` cuts it: the pieces between the
/// separators, in order (one empty piece for an empty text).
pub open spec fn split_at(s: Seq<char>, sep: char) -> Seq<Seq<char>>
    decreases s.len(),
{
    if s.len() == 0 {
        seq![Seq::empty()]
    } else {
        let rest = split_at(s.drop_last(), sep);
        if s.last() == sep {
            rest.push(Seq::empty())
        } else {
            rest.update(rest.len() - 1, rest.last().push(s.last()))
        }
    }
}

pub proof fn lemma_split_at_len(s: Seq<char>, sep: char)
    ensures
        split_at(s, sep).len() >= 1,
    decreases s.len(),
{
    if s.len() > 0 {
        lemma_split_at_len(s.drop_last(), sep);
    }
}

/// The pieces of `s` between the `sep`s.
pub fn split_chars(s: &[char], sep: char) -> (r: Vec<Vec<char>>)
    ensures
        lines_seq(r@) == split_at(s@, sep),
{
    let mut out: Vec<Vec<char>> = Vec::new();
    let mut cur: Vec<char> = Vec::new();
    let mut i: usize = 0;
    assert(s@.take(0) =~= Seq::<char>::empty());
    assert(lines_seq(out@).push(cur@) =~= split_at(Seq::<char>::empty(), sep));
    while i < s.len()
        invariant
            i <= s@.len(),
            lines_seq(out@).push(cur@) == split_at(s@.take(i as int), sep),
        decreases s.len() - i,
    {
        let ghost t = s@.take(i + 1);
        assert(t.drop_last() == s@.take(i as int));
        assert(t.last() == s@[i as int]);
        proof {
            lemma_split_at_len(s@.take(i as int), sep);
        }
        if s[i] == sep {
            let mut done: Vec<char> = Vec::new();
            std::mem::swap(&mut done, &mut cur);
            let ghost before = out@;
            out.push(done);
            proof {
                lemma_lines_seq_push(before, done);
                assert(lines_seq(out@).push(cur@) =~= split_at(t, sep));
            }
        } else {
            cur.push(s[i]);
            assert(lines_seq(out@).push(cur@) =~= split_at(t, sep));
        }
        i += 1;
    }
    assert(s@.take(s@.len() as int) =~= s@);
    let ghost before = out@;
    out.push(cur);
    proof {
        lemma_lines_seq_push(before, cur);
    }
    out
}

/// Whether `time` reads `s` as an RFC 3339 date and time.
pub uninterp spec fn rfc3339_valid(s: Seq<char>) -> bool;

/// `time::OffsetDateTime::parse` with the RFC 3339 format: whether it reads
/// `s`.
#[verifier::external_body]
fn is_rfc3339(s: &str) -> (r: bool)
    ensures
        r == rfc3339_valid(s@),
{
    time::OffsetDateTime::parse(s, &time::format_description::well_known::Rfc3339).is_ok()
}

pub struct CommitFileV {
    pub path: Seq<char>,
    pub old_path: Option<Seq<char>>,
    pub status: Seq<char>,
}

pub struct CommitInfoV {
    pub author: Seq<char>,
    pub at: Seq<char>,
    pub subject: Seq<char>,
    pub body: Seq<char>,
    pub files: Seq<CommitFileV>,
}

pub open spec fn commit_file_view(f: CommitFile) -> CommitFileV {
    CommitFileV { path: f.path@, old_path: crate::text::opt_view(f.old_path), status: f.status@ }
}

pub open spec fn commit_info_view(c: CommitInfo) -> CommitInfoV {
    CommitInfoV {
        author: c.author@,
        at: c.at@,
        subject: c.subject@,
        body: c.body@,
        files: c.files@.map_values(|f: CommitFile| commit_file_view(f)),
    }
}

pub open spec fn log_view(v: Seq<(String, CommitInfo)>) -> Seq<(Seq<char>, CommitInfoV)> {
    v.map_values(|e: (String, CommitInfo)| (e.0@, commit_info_view(e.1)))
}

/// The commits the first `git log` pass tells (records ended by NUL, of the
/// fields id, author, time, subject and body, parted by `\x1f`), in order: a
/// record with fewer than four fields, or a time that is not RFC 3339, is
/// passed over; the body loses its trailing white space.
pub open spec fn said_commits(records: Seq<Seq<char>>) -> Seq<(Seq<char>, CommitInfoV)>
    decreases records.len(),
{
    if records.len() == 0 {
        seq![]
    } else {
        let rest = said_commits(records.drop_last());
        let r = records.last();
        let f = split_at(r, '\x1f');
        if r.len() > 0 && f.len() >= 4 && rfc3339_valid(f[2]) {
            rest.push(
                (
                    f[0],
                    CommitInfoV {
                        author: f[1],
                        at: f[2],
                        subject: f[3],
                        body: trim_end(
                            if f.len() >= 5 {
                                f[4]
                            } else {
                                Seq::empty()
                            },
                        ),
                        files: seq![],
                    },
                ),
            )
        } else {
            rest
        }
    }
}

/// The commits of the first pass (see `said_commits`), with no files yet.
pub fn commits_said(said: &str) -> (r: Vec<(String, CommitInfo)>)
    ensures
        log_view(r@) == said_commits(split_at(said@, '\x00')),
{
    let cs = chars_of(said);
    let records = split_chars(cs.as_slice(), '\x00');
    let ghost rs = lines_seq(records@);
    let mut out: Vec<(String, CommitInfo)> = Vec::new();
    for k in 0..records.len()
        invariant
            rs == lines_seq(records@),
            rs == split_at(said@, '\x00'),
            log_view(out@) == said_commits(rs.take(k as int)),
    {
        let ghost t = rs.take(k + 1);
        proof {
            assert(t.drop_last() =~= rs.take(k as int));
            assert(t.last() == records@[k as int]@);
        }
        let rec = &records[k];
        if rec.len() > 0 {
            let f = split_chars(rec.as_slice(), '\x1f');
            let ghost fv = lines_seq(f@);
            if f.len() >= 4 {
                let at = string_of(f[2].as_slice());
                if is_rfc3339(at.as_str()) {
                    let body = if f.len() >= 5 {
                        let end = trim_end_at(f[4].as_slice());
                        string_of(slice_of(f[4].as_slice(), 0, end).as_slice())
                    } else {
                        String::new()
                    };
                    assert(fv[2] == f@[2]@);
                    proof {
                        if f.len() >= 5 {
                            assert(fv[4] == f@[4]@);
                        } else {
                            assert(trim_end(Seq::<char>::empty()) == Seq::<char>::empty());
                        }
                    }
                    let info = CommitInfo {
                        author: string_of(f[1].as_slice()),
                        at,
                        subject: string_of(f[3].as_slice()),
                        body,
                        files: Vec::new(),
                    };
                    let id = string_of(f[0].as_slice());
                    let ghost before = out@;
                    out.push((id, info));
                    proof {
                        assert(fv[0] == f@[0]@ && fv[1] == f@[1]@ && fv[3] == f@[3]@);
                        assert(info.files@.map_values(|x: CommitFile| commit_file_view(x)) =~= Seq::<CommitFileV>::empty());
                        assert(log_view(out@) =~= log_view(before).push((id@, commit_info_view(info))));
                    }
                }
            }
        }
    }
    assert(rs.take(rs.len() as int) =~= rs);
    out
}

/// `s` without its leading newlines.
pub open spec fn skip_newlines(s: Seq<char>) -> Seq<char>
    decreases s.len(),
{
    if s.len() > 0 && s[0] == '\n' {
        skip_newlines(s.drop_first())
    } else {
        s
    }
}

fn skip_newlines_of(s: &[char]) -> (r: Vec<char>)
    ensures
        r@ == skip_newlines(s@),
{
    let mut i: usize = 0;
    assert(s@.skip(0) =~= s@);
    while i < s.len() && s[i] == '\n'
        invariant
            i <= s@.len(),
            skip_newlines(s@) == skip_newlines(s@.skip(i as int)),
        decreases s.len() - i,
    {
        assert(s@.skip(i as int).drop_first() =~= s@.skip(i + 1));
        i += 1;
    }
    slice_of(s, i, s.len())
}

/// What a `--name-status` letter says happened to a file.
pub open spec fn status_name(c: char) -> Seq<char> {
    if c == 'A' {
        "added"@
    } else if c == 'D' {
        "deleted"@
    } else if c == 'M' {
        "modified"@
    } else if c == 'R' {
        "renamed"@
    } else if c == 'C' {
        "copied"@
    } else {
        "changed"@
    }
}

fn status_name_of(c: char) -> (r: &'static str)
    ensures
        r@ == status_name(c),
{
    if c == 'A' {
        "added"
    } else if c == 'D' {
        "deleted"
    } else if c == 'M' {
        "modified"
    } else if c == 'R' {
        "renamed"
    } else if c == 'C' {
        "copied"
    } else {
        "changed"
    }
}

/// The place of the first commit with id `id`.
pub open spec fn commit_index(log: Seq<(Seq<char>, CommitInfoV)>, id: Seq<char>) -> Option<int>
    decreases log.len(),
{
    if log.len() == 0 {
        None
    } else if log[0].0 == id {
        Some(0)
    } else {
        match commit_index(log.drop_first(), id) {
            Some(k) => Some(k + 1),
            None => None,
        }
    }
}

proof fn lemma_commit_index(log: Seq<(Seq<char>, CommitInfoV)>, id: Seq<char>, i: int)
    requires
        0 <= i <= log.len(),
        forall|j: int| 0 <= j < i ==> (#[trigger] log[j]).0 != id,
    ensures
        i < log.len() && log[i].0 == id ==> commit_index(log, id) == Some(i),
        i == log.len() ==> commit_index(log, id) is None,
    decreases i,
{
    if i > 0 {
        let rest = log.drop_first();
        assert forall|j: int| 0 <= j < i - 1 implies (#[trigger] rest[j]).0 != id by {
            assert(rest[j] == log[j + 1]);
        }
        lemma_commit_index(rest, id, i - 1);
    }
}

/// `log` with `file` added to the files of its `i`th commit.
pub open spec fn with_file(log: Seq<(Seq<char>, CommitInfoV)>, i: int, file: CommitFileV) -> Seq<(Seq<char>, CommitInfoV)> {
    let c = log[i].1;
    log.update(i, (log[i].0, CommitInfoV { files: c.files.push(file), ..c }))
}

/// What the second `git log --name-status` pass adds to the commits: its
/// fields (ended by NUL, leading newlines dropped) are a commit's id after
/// `\x01`, then a status letter and a path (two paths, where it was and
/// where it is, for a rename or a copy) for each file that commit touched.
/// Files of a commit the first pass did not tell are passed over; the list
/// ends early where a path it needs is missing.
pub open spec fn attach(log: Seq<(Seq<char>, CommitInfoV)>, fields: Seq<Seq<char>>, at: Option<int>) -> Seq<(Seq<char>, CommitInfoV)>
    decreases fields.len(),
{
    if fields.len() == 0 {
        log
    } else {
        let f = fields[0];
        let rest = fields.drop_first();
        if f.len() > 0 && f[0] == '\x01' {
            attach(log, rest, commit_index(log, f.drop_first()))
        } else if at is None || f.len() == 0 {
            attach(log, rest, at)
        } else {
            let i = at->0;
            let status = f[0];
            let moved = status == 'R' || status == 'C';
            if rest.len() == 0 || (moved && rest.len() < 2) {
                log
            } else if moved {
                let file = CommitFileV { path: rest[1], old_path: Some(rest[0]), status: status_name(status) };
                attach(with_file(log, i, file), rest.skip(2), at)
            } else {
                let file = CommitFileV { path: rest[0], old_path: None, status: status_name(status) };
                attach(with_file(log, i, file), rest.skip(1), at)
            }
        }
    }
}

proof fn lemma_commit_index_in(log: Seq<(Seq<char>, CommitInfoV)>, id: Seq<char>)
    ensures
        commit_index(log, id) matches Some(i) ==> 0 <= i < log.len() && log[i].0 == id,
    decreases log.len(),
{
    if log.len() > 0 {
        lemma_commit_index_in(log.drop_first(), id);
    }
}

proof fn lemma_with_file_ids(log: Seq<(Seq<char>, CommitInfoV)>, i: int, file: CommitFileV, id: Seq<char>)
    requires
        0 <= i < log.len(),
    ensures
        commit_index(with_file(log, i, file), id) == commit_index(log, id),
        with_file(log, i, file).len() == log.len(),
    decreases log.len(),
{
    if log.len() > 0 && i > 0 {
        assert(with_file(log, i, file).drop_first() =~= with_file(log.drop_first(), i - 1, file));
        lemma_with_file_ids(log.drop_first(), i - 1, file, id);
    } else if log.len() > 0 {
        assert(with_file(log, i, file).drop_first() =~= log.drop_first());
    }
}

/// The place of the first commit of `out` with id `id`.
fn find_commit(out: &Vec<(String, CommitInfo)>, id: &[char]) -> (r: Option<usize>)
    ensures
        match r {
            Some(i) => Some(i as int),
            None => None,
        } == commit_index(log_view(out@), id@),
        r matches Some(i) ==> i < out@.len(),
{
    let ghost lv = log_view(out@);
    for j in 0..out.len()
        invariant
            lv == log_view(out@),
            forall|q: int| 0 <= q < j ==> (#[trigger] lv[q]).0 != id@,
    {
        let name = chars_of(out[j].0.as_str());
        if same_chars(name.as_slice(), id) {
            proof {
                lemma_commit_index(lv, id@, j as int);
            }
            return Some(j);
        }
    }
    proof {
        lemma_commit_index(lv, id@, lv.len() as int);
    }
    None
}

/// Adds the files the second pass tells (see `attach`) to the commits.
pub fn attach_files(out: &mut Vec<(String, CommitInfo)>, touched: &str)
    ensures
        log_view(final(out)@) == attach(
            log_view(old(out)@),
            split_at(touched@, '\x00').map_values(|f: Seq<char>| skip_newlines(f)),
            None,
        ),
{
    let cs = chars_of(touched);
    let raw = split_chars(cs.as_slice(), '\x00');
    let mut fields: Vec<Vec<char>> = Vec::new();
    for k in 0..raw.len()
        invariant
            lines_seq(fields@) == lines_seq(raw@).take(k as int).map_values(|f: Seq<char>| skip_newlines(f)),
    {
        let f = skip_newlines_of(raw[k].as_slice());
        let ghost before = fields@;
        fields.push(f);
        proof {
            lemma_lines_seq_push(before, f);
            assert(lines_seq(raw@).take(k + 1) =~= lines_seq(raw@).take(k as int).push(raw@[k as int]@));
            assert(lines_seq(fields@) =~= lines_seq(raw@).take(k + 1).map_values(|f: Seq<char>| skip_newlines(f)));
        }
    }
    assert(lines_seq(raw@).take(raw@.len() as int) =~= lines_seq(raw@));
    let ghost fs = lines_seq(fields@);
    let ghost goal = attach(log_view(out@), fs, None);
    let mut at: Option<usize> = None;
    let mut k: usize = 0;
    assert(fs.skip(0) =~= fs);
    while k < fields.len()
        invariant
            k <= fields@.len(),
            fs == lines_seq(fields@),
            goal == attach(
                log_view(old(out)@),
                split_at(touched@, '\x00').map_values(|f: Seq<char>| skip_newlines(f)),
                None,
            ),
            goal == attach(log_view(out@), fs.skip(k as int), match at {
                Some(i) => Some(i as int),
                None => None,
            }),
            at matches Some(i) ==> i < out@.len(),
        decreases fields.len() - k,
    {
        let ghost lv = log_view(out@);
        let ghost ats = match at {
            Some(i) => Some(i as int),
            None => None,
        };
        let ghost here = fs.skip(k as int);
        assert(here[0] == fields@[k as int]@);
        assert(here.drop_first() =~= fs.skip(k + 1));
        let f = &fields[k];
        if f.len() > 0 && f[0] == '\x01' {
            let id = slice_of(f.as_slice(), 1, f.len());
            assert(id@ =~= here[0].drop_first());
            let found = find_commit(out, id.as_slice());
            at = found;
            k += 1;
        } else if at.is_none() || f.len() == 0 {
            k += 1;
        } else {
            let i = at.unwrap();
            assert(fs.len() == fields@.len());
            assert(here.len() == fs.len() - k);
            assert(f@ == here[0]);
            let status = f[0];
            let moved = status == 'R' || status == 'C';
            let n = fields.len() - k - 1;
            if n == 0 || (moved && n < 2) {
                proof {
                    assert(ats == Some(i as int));
                    assert(here.drop_first().len() == n);
                    assert(!(here[0].len() > 0 && here[0][0] == '\x01'));
                    assert(attach(lv, here, ats) == lv);
                }
                return;
            }
            let file = if moved {
                CommitFile {
                    path: string_of(fields[k + 2].as_slice()),
                    old_path: Some(string_of(fields[k + 1].as_slice())),
                    status: status_name_of(status).to_string(),
                }
            } else {
                CommitFile {
                    path: string_of(fields[k + 1].as_slice()),
                    old_path: None,
                    status: status_name_of(status).to_string(),
                }
            };
            let ghost fv = commit_file_view(file);
            proof {
                if moved {
                    assert(here.drop_first()[1] == fields@[k + 2]@);
                    assert(here.drop_first()[0] == fields@[k + 1]@);
                    assert(here.drop_first().skip(2) =~= fs.skip(k + 3));
                } else {
                    assert(here.drop_first()[0] == fields@[k + 1]@);
                    assert(here.drop_first().skip(1) =~= fs.skip(k + 2));
                }
                lemma_with_file_ids(lv, i as int, fv, Seq::empty());
            }
            let ghost old_entry = out@[i as int];
            out[i].1.files.push(file);
            proof {
                let e = out@[i as int];
                assert(e.0 == old_entry.0);
                assert(e.1.files@ =~= old_entry.1.files@.push(file));
                assert(commit_info_view(e.1).files =~= commit_info_view(old_entry.1).files.push(fv));
                assert(commit_info_view(e.1) == CommitInfoV { files: commit_info_view(old_entry.1).files.push(fv), ..commit_info_view(old_entry.1) });
                assert(log_view(out@) =~= with_file(lv, i as int, fv));
            }
            if moved {
                k += 3;
            } else {
                k += 2;
            }
        }
    }
    assert(fs.skip(k as int) =~= Seq::<Seq<char>>::empty());
}

/// The commits of a range, oldest first, from the two `git log` passes: what
/// each one says (`said`, see `said_commits`) and what it touched
/// (`touched`, see `attach`).
pub fn parse_log(said: &str, touched: &str) -> (r: Vec<(String, CommitInfo)>)
    ensures
        log_view(r@) == attach(
            said_commits(split_at(said@, '\x00')),
            split_at(touched@, '\x00').map_values(|f: Seq<char>| skip_newlines(f)),
            None,
        ),
{
    let mut out = commits_said(said);
    attach_files(&mut out, touched);
    out
}

} // verus!
