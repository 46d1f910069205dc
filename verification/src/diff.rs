//! Parsing for **unified diff** text only (`git diff` / `diff -u` output).
//! Legacy context-diff format (`>`/`<` change markers) is not accepted, since
//! it would collide with the annotation format's own use of `>`.
//!
//! The text is read line by line; [`diff_step`] says what each line does to
//! the parser's state, and [`parse_outcome`] is the whole reading.

use crate::text::{
    chars_of, ends_with_str, find_char, first_index, has_prefix, has_suffix, is_str, is_whitespace,
    is_ws, lemma_first_index, lines_of, opt_view, parse_u32, parse_u32_exec, push_str, slice_of,
    split_lines, starts_with, starts_with_str, string_of, trim, trim_start, trim_start_at, trimmed,
};
use vstd::prelude::*;

verus! {

#[derive(Debug, Clone, Copy, PartialEq, Eq, Structural)]
pub enum LineKind {
    Context,
    Added,
    Removed,
}

/// One content line of a hunk, with its 1-based line number on each side
/// that has it.
#[derive(Debug, Clone, PartialEq, Eq)]
pub struct DiffLine {
    pub kind: LineKind,
    pub content: String,
    pub old_line: Option<u32>,
    pub new_line: Option<u32>,
    /// Set when this line is followed by a `\ No newline at end of file`
    /// marker.
    pub no_newline_at_eof: bool,
}

#[derive(Debug, Clone, PartialEq, Eq)]
pub struct Hunk {
    pub old_start: u32,
    pub old_lines: u32,
    pub new_start: u32,
    pub new_lines: u32,
    /// The trailing `@@ ... @@ <heading>` text.
    pub section_heading: Option<String>,
    pub lines: Vec<DiffLine>,
}

#[derive(Debug, Clone, PartialEq, Eq)]
pub struct FileDiff {
    pub old_path: Option<String>,
    pub new_path: Option<String>,
    pub is_rename: bool,
    pub is_binary: bool,
    pub hunks: Vec<Hunk>,
}

#[derive(Debug, Clone, PartialEq, Eq)]
pub struct UnifiedDiff {
    pub files: Vec<FileDiff>,
}

#[derive(Debug, Clone, PartialEq, Eq)]
pub enum ParseError {
    Malformed { line: usize, message: String },
}

// ---- the mathematical view ---------------------------------------------------

pub struct DiffLineV {
    pub kind: LineKind,
    pub content: Seq<char>,
    pub old_line: Option<u32>,
    pub new_line: Option<u32>,
    pub no_newline_at_eof: bool,
}

pub struct HunkV {
    pub old_start: u32,
    pub old_lines: u32,
    pub new_start: u32,
    pub new_lines: u32,
    pub section_heading: Option<Seq<char>>,
    pub lines: Seq<DiffLineV>,
}

pub struct FileDiffV {
    pub old_path: Option<Seq<char>>,
    pub new_path: Option<Seq<char>>,
    pub is_rename: bool,
    pub is_binary: bool,
    pub hunks: Seq<HunkV>,
}

impl View for DiffLine {
    type V = DiffLineV;

    open spec fn view(&self) -> DiffLineV {
        DiffLineV {
            kind: self.kind,
            content: self.content@,
            old_line: self.old_line,
            new_line: self.new_line,
            no_newline_at_eof: self.no_newline_at_eof,
        }
    }
}

pub open spec fn lines_view(v: Seq<DiffLine>) -> Seq<DiffLineV> {
    v.map_values(|l: DiffLine| l@)
}

impl View for Hunk {
    type V = HunkV;

    open spec fn view(&self) -> HunkV {
        HunkV {
            old_start: self.old_start,
            old_lines: self.old_lines,
            new_start: self.new_start,
            new_lines: self.new_lines,
            section_heading: opt_view(self.section_heading),
            lines: lines_view(self.lines@),
        }
    }
}

pub open spec fn hunks_view(v: Seq<Hunk>) -> Seq<HunkV> {
    v.map_values(|h: Hunk| h@)
}

impl View for FileDiff {
    type V = FileDiffV;

    open spec fn view(&self) -> FileDiffV {
        FileDiffV {
            old_path: opt_view(self.old_path),
            new_path: opt_view(self.new_path),
            is_rename: self.is_rename,
            is_binary: self.is_binary,
            hunks: hunks_view(self.hunks@),
        }
    }
}

pub open spec fn files_view(v: Seq<FileDiff>) -> Seq<FileDiffV> {
    v.map_values(|f: FileDiff| f@)
}

impl View for UnifiedDiff {
    type V = Seq<FileDiffV>;

    open spec fn view(&self) -> Seq<FileDiffV> {
        files_view(self.files@)
    }
}

pub open spec fn opt_file_view(f: Option<FileDiff>) -> Option<FileDiffV> {
    match f {
        Some(x) => Some(x@),
        None => None,
    }
}

pub open spec fn opt_hunk_view(h: Option<Hunk>) -> Option<HunkV> {
    match h {
        Some(x) => Some(x@),
        None => None,
    }
}

impl ParseError {
    pub fn line(&self) -> (r: usize)
        ensures
            r == match self {
                ParseError::Malformed { line, .. } => *line,
            },
    {
        match self {
            ParseError::Malformed { line, .. } => *line,
        }
    }

    pub fn message(&self) -> (r: &str)
        ensures
            r@ == match self {
                ParseError::Malformed { message, .. } => message@,
            },
    {
        match self {
            ParseError::Malformed { message, .. } => message.as_str(),
        }
    }
}

pub open spec fn empty_file() -> FileDiffV {
    FileDiffV { old_path: None, new_path: None, is_rename: false, is_binary: false, hunks: seq![] }
}

pub fn new_file() -> (r: FileDiff)
    ensures
        r@ == empty_file(),
{
    let r = FileDiff { old_path: None, new_path: None, is_rename: false, is_binary: false, hunks: Vec::new() };
    assert(r@.hunks =~= Seq::<HunkV>::empty());
    r
}

// ---- paths and hunk headers --------------------------------------------------

/// A path of a `---`/`+++` line: up to a tab, trimmed; `/dev/null` is no
/// file, and a leading `a/` or `b/` goes.
pub open spec fn path_of(rest: Seq<char>) -> Option<Seq<char>> {
    let p = trim(rest.take(first_index(rest, '\t')));
    if p == "/dev/null"@ {
        None
    } else if has_prefix(p, "a/"@) {
        Some(p.skip(2))
    } else if has_prefix(p, "b/"@) {
        Some(p.skip(2))
    } else {
        Some(p)
    }
}

pub fn parse_path(rest: &[char]) -> (r: Option<String>)
    ensures
        opt_view(r) == path_of(rest@),
{
    proof {
        lemma_first_index(rest@, '\t');
    }
    let k = find_char(rest, 0, '\t');
    assert(rest@.skip(0) == rest@);
    let head = slice_of(rest, 0, k);
    assert(head@ == rest@.take(k as int));
    let p = trimmed(head.as_slice());
    if is_str(p.as_slice(), "/dev/null") {
        None
    } else {
        proof {
            reveal_strlit("a/");
            reveal_strlit("b/");
        }
        if starts_with_str(p.as_slice(), "a/") || starts_with_str(p.as_slice(), "b/") {
            let s = slice_of(p.as_slice(), 2, p.len());
            assert(s@ == p@.skip(2));
            Some(string_of(s.as_slice()))
        } else {
            Some(string_of(p.as_slice()))
        }
    }
}

/// The index of the first place `p` occurs in `s`.
pub open spec fn find_seq(s: Seq<char>, p: Seq<char>) -> Option<int>
    decreases s.len(),
{
    if has_prefix(s, p) {
        Some(0)
    } else if s.len() == 0 {
        None
    } else {
        match find_seq(s.drop_first(), p) {
            Some(i) => Some(i + 1),
            None => None,
        }
    }
}

pub proof fn lemma_find_seq(s: Seq<char>, p: Seq<char>)
    ensures
        find_seq(s, p) matches Some(i) ==> 0 <= i && i + p.len() <= s.len() && s.subrange(
            i,
            i + p.len(),
        ) == p,
    decreases s.len(),
{
    if !has_prefix(s, p) && s.len() > 0 {
        lemma_find_seq(s.drop_first(), p);
        if let Some(i) = find_seq(s.drop_first(), p) {
            assert(s.subrange(i + 1, i + 1 + p.len()) == s.drop_first().subrange(i, i + p.len()));
        }
    }
}

/// Where `p` first occurs in `s[from..]` (an index into `s`).
pub fn find_chars(s: &[char], p: &[char]) -> (r: Option<usize>)
    ensures
        match r {
            Some(i) => find_seq(s@, p@) == Some(i as int),
            None => find_seq(s@, p@) is None,
        },
{
    let mut i: usize = s.len();
    let mut found: Option<usize> = None;
    // Search from the end so each step knows the answer for the rest.
    assert(s@.skip(s@.len() as int).len() == 0);
    if starts_with(slice_of(s, s.len(), s.len()).as_slice(), p) {
        found = Some(0);
    }
    assert(found matches Some(j) ==> find_seq(s@.skip(i as int), p@) == Some(j as int));
    assert(found is None ==> find_seq(s@.skip(i as int), p@) is None);
    while i > 0
        invariant
            i <= s@.len(),
            match found {
                Some(j) => find_seq(s@.skip(i as int), p@) == Some(j as int) && j + i <= s@.len(),
                None => find_seq(s@.skip(i as int), p@) is None,
            },
        decreases i,
    {
        i -= 1;
        let tail = slice_of(s, i, s.len());
        assert(tail@ == s@.skip(i as int));
        assert(tail@.drop_first() == s@.skip(i + 1));
        if starts_with(tail.as_slice(), p) {
            found = Some(0);
        } else {
            found = match found {
                Some(j) => Some(j + 1),
                None => None,
            };
        }
    }
    assert(s@.skip(0) == s@);
    found
}

/// The first word of `s` (split at white space) and what follows it.
pub open spec fn first_word(s: Seq<char>) -> Option<(Seq<char>, Seq<char>)> {
    let t = trim_start(s);
    if t.len() == 0 {
        None
    } else {
        let k = first_ws(t);
        Some((t.take(k), t.skip(k)))
    }
}

/// The index of the first white space in `s`, or its length.
pub open spec fn first_ws(s: Seq<char>) -> int
    decreases s.len(),
{
    if s.len() == 0 {
        0
    } else if is_ws(s[0]) {
        0
    } else {
        1 + first_ws(s.drop_first())
    }
}

pub proof fn lemma_first_ws(s: Seq<char>)
    ensures
        0 <= first_ws(s) <= s.len(),
    decreases s.len(),
{
    if s.len() > 0 && !is_ws(s[0]) {
        lemma_first_ws(s.drop_first());
    }
}

/// The first word of `s[from..]`: where it starts and ends, if any.
pub fn next_word(s: &[char]) -> (r: Option<(usize, usize)>)
    ensures
        match r {
            Some((a, b)) => a <= b <= s@.len() && first_word(s@) == Some(
                (s@.subrange(a as int, b as int), s@.skip(b as int)),
            ),
            None => first_word(s@) is None,
        },
{
    let a = trim_start_at(s);
    if a == s.len() {
        return None;
    }
    let mut b = a;
    let ghost t = s@.skip(a as int);
    proof {
        lemma_first_ws(t);
    }
    while b < s.len() && !is_whitespace(s[b])
        invariant
            a <= b <= s@.len(),
            t == s@.skip(a as int),
            first_ws(t) == (b - a) + first_ws(s@.skip(b as int)),
        decreases s.len() - b,
    {
        assert(s@.skip(b as int).drop_first() == s@.skip(b + 1));
        b += 1;
    }
    assert(first_ws(s@.skip(b as int)) == 0);
    assert(t.take(b - a) == s@.subrange(a as int, b as int));
    assert(t.skip(b - a) == s@.skip(b as int));
    Some((a, b))
}

/// `format!("{:?}", s)`: the text of `s` as Rust writes a string literal.
pub uninterp spec fn str_debug(s: Seq<char>) -> Seq<char>;

/// `format!("{:?}", c)`: a character as Rust writes a character literal.
pub uninterp spec fn char_debug(c: char) -> Seq<char>;

/// std's `Debug` for `str`: `format!("{:?}", s)`.
#[verifier::external_body]
fn debug_of_str(s: &str) -> (r: String)
    ensures
        r@ == str_debug(s@),
{
    format!("{s:?}")
}

/// std's `Debug` for `char`: `format!("{:?}", c)`.
#[verifier::external_body]
fn debug_of_char(c: char) -> (r: String)
    ensures
        r@ == char_debug(c),
{
    format!("{c:?}")
}

/// `prefix` followed by the debug form of `s`.
pub fn message_with(prefix: &str, s: &[char]) -> (r: String)
    ensures
        r@ == prefix@ + str_debug(s@),
{
    let text = string_of(s);
    let d = debug_of_str(text.as_str());
    let mut out = prefix.to_owned();
    push_str(&mut out, d.as_str());
    out
}

/// `prefix` followed by the debug form of `c`.
pub fn message_with_char(prefix: &str, c: char) -> (r: String)
    ensures
        r@ == prefix@ + char_debug(c),
{
    let d = debug_of_char(c);
    let mut out = prefix.to_owned();
    push_str(&mut out, d.as_str());
    out
}

/// A hunk range `-start,len` / `+start,len` (`len` 1 when left out).
pub open spec fn range_of(w: Seq<char>, prefix: char) -> Result<(u32, u32), Seq<char>> {
    if !(w.len() > 0 && w[0] == prefix) {
        Err("malformed hunk range "@ + str_debug(w))
    } else {
        let s = w.drop_first();
        let k = first_index(s, ',');
        if k < s.len() {
            let (start, len) = (s.take(k), s.skip(k + 1));
            match parse_u32(start) {
                None => Err("malformed hunk range start "@ + str_debug(start)),
                Some(a) => match parse_u32(len) {
                    None => Err("malformed hunk range length "@ + str_debug(len)),
                    Some(b) => Ok((a, b)),
                },
            }
        } else {
            match parse_u32(s) {
                None => Err("malformed hunk range "@ + str_debug(s)),
                Some(a) => Ok((a, 1)),
            }
        }
    }
}

/// A hunk range with its length left out is one line long, and one with a
/// length is that long: `-a` reads as `(a, 1)` and `-a,b` as `(a, b)`.
pub proof fn lemma_range_lengths(prefix: char, start: Seq<char>, len: Seq<char>, a: u32, b: u32)
    requires
        parse_u32(start) == Some(a),
        parse_u32(len) == Some(b),
        !start.contains(','),
    ensures
        range_of(seq![prefix] + start, prefix) == Ok::<(u32, u32), Seq<char>>((a, 1)),
        range_of(seq![prefix] + start + seq![','] + len, prefix) == Ok::<(u32, u32), Seq<char>>((a, b)),
{
    let w1 = seq![prefix] + start;
    assert(w1.drop_first() =~= start);
    lemma_first_index(start, ',');
    if first_index(start, ',') < start.len() {
        assert(start.contains(','));
    }
    let s2 = start + seq![','] + len;
    let w2 = seq![prefix] + s2;
    assert(w2.drop_first() =~= s2);
    lemma_first_index(s2, ',');
    let k = first_index(s2, ',');
    if k < start.len() {
        assert(s2[k] == start[k]);
        assert(start.contains(','));
    }
    assert(s2[start.len() as int] == ',');
    assert(k == start.len());
    assert(s2.take(k) =~= start);
    assert(s2.skip(k + 1) =~= len);
    assert(seq![prefix] + start + seq![','] + len =~= w2);
}

pub fn parse_range(w: &[char], prefix: char, line_no: usize) -> (r: Result<(u32, u32), ParseError>)
    ensures
        match r {
            Ok(v) => range_of(w@, prefix) == Ok::<(u32, u32), Seq<char>>(v),
            Err(ParseError::Malformed { line, message }) => line == line_no && range_of(
                w@,
                prefix,
            ) == Err::<(u32, u32), Seq<char>>(message@),
        },
{
    if !(w.len() > 0 && w[0] == prefix) {
        return Err(ParseError::Malformed { line: line_no, message: message_with("malformed hunk range ", w) });
    }
    let s = slice_of(w, 1, w.len());
    assert(s@ == w@.drop_first());
    proof {
        lemma_first_index(s@, ',');
    }
    let k = find_char(s.as_slice(), 0, ',');
    assert(s@.skip(0) == s@);
    if k < s.len() {
        let start = slice_of(s.as_slice(), 0, k);
        let len = slice_of(s.as_slice(), k + 1, s.len());
        assert(start@ == s@.take(k as int));
        assert(len@ == s@.skip(k + 1));
        match parse_u32_exec(start.as_slice()) {
            None => Err(ParseError::Malformed {
                line: line_no,
                message: message_with("malformed hunk range start ", start.as_slice()),
            }),
            Some(a) => match parse_u32_exec(len.as_slice()) {
                None => Err(ParseError::Malformed {
                    line: line_no,
                    message: message_with("malformed hunk range length ", len.as_slice()),
                }),
                Some(b) => Ok((a, b)),
            },
        }
    } else {
        match parse_u32_exec(s.as_slice()) {
            None => Err(ParseError::Malformed { line: line_no, message: message_with("malformed hunk range ", s.as_slice()) }),
            Some(a) => Ok((a, 1)),
        }
    }
}

/// What a hunk header line `@@ -a,b +c,d @@ heading` says, or the message
/// for what is wrong with it.
pub open spec fn hunk_header(l: Seq<char>) -> Result<(u32, u32, u32, u32, Option<Seq<char>>), Seq<char>> {
    if !has_prefix(l, "@@ "@) {
        Err("malformed hunk header"@)
    } else {
        let rest = l.skip(3);
        match find_seq(rest, " @@"@) {
            None => Err("malformed hunk header: missing closing '@@'"@),
            Some(i) => {
                let ranges = rest.take(i);
                let h = trim_start(rest.skip(i + 3));
                let heading = if h.len() == 0 {
                    None
                } else {
                    Some(h)
                };
                match first_word(ranges) {
                    None => Err("malformed hunk header: missing old range"@),
                    Some((old_w, after)) => match first_word(after) {
                        None => Err("malformed hunk header: missing new range"@),
                        Some((new_w, _)) => match range_of(old_w, '-') {
                            Err(m) => Err(m),
                            Ok((a, b)) => match range_of(new_w, '+') {
                                Err(m) => Err(m),
                                Ok((c, d)) => Ok((a, b, c, d, heading)),
                            },
                        },
                    },
                }
            },
        }
    }
}

pub fn parse_hunk_header(l: &[char], line_no: usize) -> (r: Result<(u32, u32, u32, u32, Option<String>), ParseError>)
    ensures
        match r {
            Ok((a, b, c, d, h)) => hunk_header(l@) == Ok::<
                (u32, u32, u32, u32, Option<Seq<char>>),
                Seq<char>,
            >((a, b, c, d, opt_view(h))),
            Err(ParseError::Malformed { line, message }) => line == line_no && hunk_header(l@)
                == Err::<(u32, u32, u32, u32, Option<Seq<char>>), Seq<char>>(message@),
        },
{
    proof {
        reveal_strlit("@@ ");
    }
    if !starts_with_str(l, "@@ ") {
        return Err(ParseError::Malformed { line: line_no, message: "malformed hunk header".to_owned() });
    }
    let rest = slice_of(l, 3, l.len());
    assert(rest@ == l@.skip(3));
    let close = chars_of(" @@");
    let i = match find_chars(rest.as_slice(), close.as_slice()) {
        None => {
            return Err(ParseError::Malformed {
                line: line_no,
                message: "malformed hunk header: missing closing '@@'".to_owned(),
            });
        },
        Some(i) => i,
    };
    proof {
        lemma_find_seq(rest@, close@);
        reveal_strlit(" @@");
    }
    let ranges = slice_of(rest.as_slice(), 0, i);
    let after = slice_of(rest.as_slice(), i + 3, rest.len());
    assert(ranges@ == rest@.take(i as int));
    assert(after@ == rest@.skip(i + 3));
    let hs = trim_start_at(after.as_slice());
    let heading = if hs == after.len() {
        None
    } else {
        let h = slice_of(after.as_slice(), hs, after.len());
        assert(h@ == after@.skip(hs as int));
        Some(string_of(h.as_slice()))
    };
    let (a0, b0) = match next_word(ranges.as_slice()) {
        None => {
            return Err(ParseError::Malformed {
                line: line_no,
                message: "malformed hunk header: missing old range".to_owned(),
            });
        },
        Some(w) => w,
    };
    let old_w = slice_of(ranges.as_slice(), a0, b0);
    let rest2 = slice_of(ranges.as_slice(), b0, ranges.len());
    assert(rest2@ == ranges@.skip(b0 as int));
    let (a1, b1) = match next_word(rest2.as_slice()) {
        None => {
            return Err(ParseError::Malformed {
                line: line_no,
                message: "malformed hunk header: missing new range".to_owned(),
            });
        },
        Some(w) => w,
    };
    let new_w = slice_of(rest2.as_slice(), a1, b1);
    let (oa, ob) = parse_range(old_w.as_slice(), '-', line_no)?;
    let (na, nb) = parse_range(new_w.as_slice(), '+', line_no)?;
    Ok((oa, ob, na, nb, heading))
}

// ---- the reading, line by line -----------------------------------------------

/// What has been read so far.
pub struct DiffState {
    pub files: Seq<FileDiffV>,
    pub file: Option<FileDiffV>,
    pub hunk: Option<HunkV>,
    pub old_no: int,
    pub new_no: int,
}

/// How reading a line (or the whole text) ended.
pub enum Outcome {
    Done(DiffState),
    /// A malformed line: its number and what is wrong.
    Failed(int, Seq<char>),
    /// A line number no longer fits in a `u32`.
    Overflow,
}

pub open spec fn initial_state() -> DiffState {
    DiffState { files: seq![], file: None, hunk: None, old_no: 0, new_no: 0 }
}

/// The current hunk added to the current file (and dropped when there is no
/// file to add it to).
pub open spec fn finish_hunk_v(file: Option<FileDiffV>, hunk: Option<HunkV>) -> Option<FileDiffV> {
    match (file, hunk) {
        (Some(f), Some(h)) => Some(FileDiffV { hunks: f.hunks.push(h), ..f }),
        _ => file,
    }
}

/// The current file (with its hunk) added to the files.
pub open spec fn finish_file_v(st: DiffState) -> DiffState {
    let file = finish_hunk_v(st.file, st.hunk);
    DiffState {
        files: match file {
            Some(f) => st.files.push(f),
            None => st.files,
        },
        file: None,
        hunk: None,
        ..st
    }
}

/// The lines of a file header that say nothing the parser keeps.
pub open spec fn is_header_noise(l: Seq<char>) -> bool {
    ||| has_prefix(l, "index "@)
    ||| has_prefix(l, "old mode "@)
    ||| has_prefix(l, "new mode "@)
    ||| has_prefix(l, "deleted file mode "@)
    ||| has_prefix(l, "new file mode "@)
    ||| has_prefix(l, "similarity index "@)
}

/// The current file, or a new one if there is none.
pub open spec fn file_or_new(st: DiffState) -> FileDiffV {
    match st.file {
        Some(f) => f,
        None => empty_file(),
    }
}

/// What line `l` (numbered `n`) does to the state `st`.
pub open spec fn diff_step(st: DiffState, l: Seq<char>, n: int) -> Outcome {
    if has_prefix(l, "diff --git "@) {
        Outcome::Done(DiffState { file: Some(empty_file()), ..finish_file_v(st) })
    } else if is_header_noise(l) {
        Outcome::Done(st)
    } else if has_prefix(l, "rename from "@) {
        let f = file_or_new(st);
        Outcome::Done(
            DiffState {
                file: Some(FileDiffV { is_rename: true, old_path: Some(trim(l.skip(12))), ..f }),
                ..st
            },
        )
    } else if has_prefix(l, "rename to "@) {
        let f = file_or_new(st);
        Outcome::Done(
            DiffState {
                file: Some(FileDiffV { is_rename: true, new_path: Some(trim(l.skip(10))), ..f }),
                ..st
            },
        )
    } else if has_prefix(l, "Binary files "@) && has_suffix(l, " differ"@) {
        let f = file_or_new(st);
        Outcome::Done(DiffState { file: Some(FileDiffV { is_binary: true, ..f }), ..st })
    } else if has_prefix(l, "--- "@) {
        let has_content = st.hunk is Some || (st.file matches Some(f) && f.hunks.len() > 0);
        let st2 = if st.file is None || has_content {
            DiffState { file: Some(empty_file()), ..finish_file_v(st) }
        } else {
            st
        };
        let f = file_or_new(st2);
        Outcome::Done(DiffState { file: Some(FileDiffV { old_path: path_of(l.skip(4)), ..f }), ..st2 })
    } else if has_prefix(l, "+++ "@) {
        match st.file {
            None => Outcome::Failed(n, "'+++' line outside of a file header"@),
            Some(f) => Outcome::Done(
                DiffState { file: Some(FileDiffV { new_path: path_of(l.skip(4)), ..f }), ..st },
            ),
        }
    } else if has_prefix(l, "@@ "@) || l == "@@"@ {
        let file = finish_hunk_v(st.file, st.hunk);
        match file {
            None => Outcome::Failed(n, "hunk header outside of a file"@),
            Some(_) => match hunk_header(l) {
                Err(m) => Outcome::Failed(n, m),
                Ok((a, b, c, d, h)) => Outcome::Done(
                    DiffState {
                        files: st.files,
                        file: file,
                        hunk: Some(
                            HunkV {
                                old_start: a,
                                old_lines: b,
                                new_start: c,
                                new_lines: d,
                                section_heading: h,
                                lines: seq![],
                            },
                        ),
                        old_no: a as int,
                        new_no: c as int,
                    },
                ),
            },
        }
    } else if l.len() > 0 && l[0] == '\\' {
        match st.hunk {
            None => Outcome::Failed(n, "'\\' marker outside of a hunk"@),
            Some(h) => if h.lines.len() > 0 {
                let last = h.lines.last();
                Outcome::Done(
                    DiffState {
                        hunk: Some(
                            HunkV {
                                lines: h.lines.update(
                                    h.lines.len() - 1,
                                    DiffLineV { no_newline_at_eof: true, ..last },
                                ),
                                ..h
                            },
                        ),
                        ..st
                    },
                )
            } else {
                Outcome::Done(st)
            },
        }
    } else if l.len() == 0 {
        Outcome::Done(DiffState { file: finish_hunk_v(st.file, st.hunk), hunk: None, ..st })
    } else {
        match st.hunk {
            None => Outcome::Failed(n, "diff content outside of a hunk"@),
            Some(h) => {
                let c = l[0];
                let content = l.drop_first();
                if c == ' ' {
                    if st.old_no >= u32::MAX || st.new_no >= u32::MAX {
                        Outcome::Overflow
                    } else {
                        let line = DiffLineV {
                            kind: LineKind::Context,
                            content,
                            old_line: Some(st.old_no as u32),
                            new_line: Some(st.new_no as u32),
                            no_newline_at_eof: false,
                        };
                        Outcome::Done(
                            DiffState {
                                hunk: Some(HunkV { lines: h.lines.push(line), ..h }),
                                old_no: st.old_no + 1,
                                new_no: st.new_no + 1,
                                ..st
                            },
                        )
                    }
                } else if c == '+' {
                    if st.new_no >= u32::MAX {
                        Outcome::Overflow
                    } else {
                        let line = DiffLineV {
                            kind: LineKind::Added,
                            content,
                            old_line: None,
                            new_line: Some(st.new_no as u32),
                            no_newline_at_eof: false,
                        };
                        Outcome::Done(
                            DiffState {
                                hunk: Some(HunkV { lines: h.lines.push(line), ..h }),
                                new_no: st.new_no + 1,
                                ..st
                            },
                        )
                    }
                } else if c == '-' {
                    if st.old_no >= u32::MAX {
                        Outcome::Overflow
                    } else {
                        let line = DiffLineV {
                            kind: LineKind::Removed,
                            content,
                            old_line: Some(st.old_no as u32),
                            new_line: None,
                            no_newline_at_eof: false,
                        };
                        Outcome::Done(
                            DiffState {
                                hunk: Some(HunkV { lines: h.lines.push(line), ..h }),
                                old_no: st.old_no + 1,
                                ..st
                            },
                        )
                    }
                } else {
                    Outcome::Failed(n, "unrecognized diff line prefix "@ + char_debug(c))
                }
            },
        }
    }
}

/// The first `k` lines read, from the start.
pub open spec fn diff_run(lines: Seq<Seq<char>>, k: int) -> Outcome
    decreases k,
{
    if k <= 0 {
        Outcome::Done(initial_state())
    } else {
        match diff_run(lines, k - 1) {
            Outcome::Done(st) => diff_step(st, lines[k - 1], k),
            other => other,
        }
    }
}

/// The whole reading of `text`: every line, then the last file finished.
pub open spec fn parse_outcome(text: Seq<char>) -> Outcome {
    let lines = lines_of(text);
    match diff_run(lines, lines.len() as int) {
        Outcome::Done(st) => Outcome::Done(finish_file_v(st)),
        other => other,
    }
}

/// Once reading has stopped, it stays stopped the same way.
pub proof fn lemma_run_stops(lines: Seq<Seq<char>>, k: int, j: int)
    requires
        0 <= k <= j,
        !(diff_run(lines, k) is Done),
    ensures
        diff_run(lines, j) == diff_run(lines, k),
    decreases j - k,
{
    if j > k {
        lemma_run_stops(lines, k, j - 1);
    }
}

/// What the parser holds while it reads.
pub struct DiffMachine {
    pub files: Vec<FileDiff>,
    pub file: Option<FileDiff>,
    pub hunk: Option<Hunk>,
    pub old_no: u32,
    pub new_no: u32,
}

impl View for DiffMachine {
    type V = DiffState;

    open spec fn view(&self) -> DiffState {
        DiffState {
            files: files_view(self.files@),
            file: opt_file_view(self.file),
            hunk: opt_hunk_view(self.hunk),
            old_no: self.old_no as int,
            new_no: self.new_no as int,
        }
    }
}

pub proof fn lemma_push_files(v: Seq<FileDiff>, f: FileDiff)
    ensures
        files_view(v.push(f)) == files_view(v).push(f@),
{
    assert(files_view(v.push(f)) =~= files_view(v).push(f@));
}

pub proof fn lemma_push_hunks(v: Seq<Hunk>, h: Hunk)
    ensures
        hunks_view(v.push(h)) == hunks_view(v).push(h@),
{
    assert(hunks_view(v.push(h)) =~= hunks_view(v).push(h@));
}

pub proof fn lemma_push_lines(v: Seq<DiffLine>, l: DiffLine)
    ensures
        lines_view(v.push(l)) == lines_view(v).push(l@),
{
    assert(lines_view(v.push(l)) =~= lines_view(v).push(l@));
}

/// Adds the current hunk to the current file.
pub fn finish_hunk(file: &mut Option<FileDiff>, hunk: &mut Option<Hunk>)
    ensures
        opt_file_view(*final(file)) == finish_hunk_v(opt_file_view(*old(file)), opt_hunk_view(*old(hunk))),
        *final(hunk) is None,
{
    if let Some(h) = hunk.take() {
        if let Some(f) = file.as_mut() {
            proof {
                lemma_push_hunks(f.hunks@, h);
            }
            f.hunks.push(h);
        }
    }
}

/// Adds the current file (with its hunk) to `files`.
pub fn finish_file(files: &mut Vec<FileDiff>, file: &mut Option<FileDiff>, hunk: &mut Option<Hunk>)
    ensures
        ({
            let st = DiffState {
                files: files_view(old(files)@),
                file: opt_file_view(*old(file)),
                hunk: opt_hunk_view(*old(hunk)),
                old_no: 0,
                new_no: 0,
            };
            &&& files_view(final(files)@) == finish_file_v(st).files
            &&& *final(file) is None
            &&& *final(hunk) is None
        }),
{
    finish_hunk(file, hunk);
    if let Some(f) = file.take() {
        proof {
            lemma_push_files(files@, f);
        }
        files.push(f);
    }
}

fn malformed(line: usize, message: &str) -> (r: ParseError)
    ensures
        r == (ParseError::Malformed { line, message: r->message }),
        r->message@ == message@,
{
    ParseError::Malformed { line, message: message.to_owned() }
}

impl DiffMachine {
    pub fn new() -> (r: DiffMachine)
        ensures
            r@ == initial_state(),
    {
        let r = DiffMachine { files: Vec::new(), file: None, hunk: None, old_no: 0, new_no: 0 };
        assert(r@.files =~= Seq::<FileDiffV>::empty());
        r
    }

    /// Finishes the current file and starts a new one.
    pub fn start_file(&mut self)
        ensures
            final(self)@ == (DiffState { file: Some(empty_file()), ..finish_file_v(old(self)@) }),
    {
        finish_file(&mut self.files, &mut self.file, &mut self.hunk);
        self.file = Some(new_file());
    }

    /// Reads line `l` (numbered `n`): `Ok` with the new state, or the error.
    /// `false` when a line number would no longer fit.
    pub fn step(&mut self, l: &[char], n: usize) -> (r: Result<bool, ParseError>)
        ensures
            match r {
                Ok(true) => diff_step(old(self)@, l@, n as int) == Outcome::Done(final(self)@),
                Ok(false) => diff_step(old(self)@, l@, n as int) is Overflow,
                Err(ParseError::Malformed { line, message }) => line == n && diff_step(
                    old(self)@,
                    l@,
                    n as int,
                ) == Outcome::Failed(n as int, message@),
            },
    {
        proof {
            reveal_strlit("diff --git ");
            reveal_strlit("@@");
        }
        if starts_with_str(l, "diff --git ") {
            self.start_file();
            return Ok(true);
        }
        if starts_with_str(l, "index ") || starts_with_str(l, "old mode ") || starts_with_str(
            l,
            "new mode ",
        ) || starts_with_str(l, "deleted file mode ") || starts_with_str(l, "new file mode ")
            || starts_with_str(l, "similarity index ") {
            return Ok(true);
        }
        if starts_with_str(l, "rename from ") {
            proof {
                reveal_strlit("rename from ");
            }
            let rest = slice_of(l, 12, l.len());
            assert(rest@ == l@.skip(12));
            let p = trimmed(rest.as_slice());
            let mut f = match self.file.take() {
                Some(f) => f,
                None => new_file(),
            };
            f.is_rename = true;
            f.old_path = Some(string_of(p.as_slice()));
            self.file = Some(f);
            return Ok(true);
        }
        if starts_with_str(l, "rename to ") {
            proof {
                reveal_strlit("rename to ");
            }
            let rest = slice_of(l, 10, l.len());
            assert(rest@ == l@.skip(10));
            let p = trimmed(rest.as_slice());
            let mut f = match self.file.take() {
                Some(f) => f,
                None => new_file(),
            };
            f.is_rename = true;
            f.new_path = Some(string_of(p.as_slice()));
            self.file = Some(f);
            return Ok(true);
        }
        if starts_with_str(l, "Binary files ") && ends_with_str(l, " differ") {
            let mut f = match self.file.take() {
                Some(f) => f,
                None => new_file(),
            };
            f.is_binary = true;
            self.file = Some(f);
            return Ok(true);
        }
        if starts_with_str(l, "--- ") {
            proof {
                reveal_strlit("--- ");
            }
            let has_content = self.hunk.is_some() || match &self.file {
                Some(f) => f.hunks.len() > 0,
                None => false,
            };
            if self.file.is_none() || has_content {
                self.start_file();
            }
            let rest = slice_of(l, 4, l.len());
            assert(rest@ == l@.skip(4));
            let p = parse_path(rest.as_slice());
            let mut f = match self.file.take() {
                Some(f) => f,
                None => new_file(),
            };
            f.old_path = p;
            self.file = Some(f);
            return Ok(true);
        }
        if starts_with_str(l, "+++ ") {
            proof {
                reveal_strlit("+++ ");
            }
            let rest = slice_of(l, 4, l.len());
            assert(rest@ == l@.skip(4));
            let p = parse_path(rest.as_slice());
            match self.file.as_mut() {
                None => {
                    return Err(malformed(n, "'+++' line outside of a file header"));
                },
                Some(f) => {
                    f.new_path = p;
                    return Ok(true);
                },
            }
        }
        if starts_with_str(l, "@@ ") || is_str(l, "@@") {
            finish_hunk(&mut self.file, &mut self.hunk);
            if self.file.is_none() {
                return Err(malformed(n, "hunk header outside of a file"));
            }
            let (a, b, c, d, h) = match parse_hunk_header(l, n) {
                Ok(v) => v,
                Err(e) => {
                    return Err(e);
                },
            };
            self.old_no = a;
            self.new_no = c;
            let hunk = Hunk {
                old_start: a,
                old_lines: b,
                new_start: c,
                new_lines: d,
                section_heading: h,
                lines: Vec::new(),
            };
            assert(hunk@.lines =~= Seq::<DiffLineV>::empty());
            self.hunk = Some(hunk);
            return Ok(true);
        }
        if l.len() > 0 && l[0] == '\\' {
            match self.hunk.as_mut() {
                None => {
                    return Err(malformed(n, "'\\' marker outside of a hunk"));
                },
                Some(h) => {
                    if h.lines.len() > 0 {
                        let k = h.lines.len() - 1;
                        let mut last = h.lines.pop().unwrap();
                        last.no_newline_at_eof = true;
                        h.lines.push(last);
                        proof {
                            assert(lines_view(h.lines@) =~= lines_view(
                                old(self).hunk.unwrap().lines@,
                            ).update(k as int, last@));
                        }
                    }
                    return Ok(true);
                },
            }
        }
        if l.len() == 0 {
            finish_hunk(&mut self.file, &mut self.hunk);
            return Ok(true);
        }
        let c = l[0];
        let content = slice_of(l, 1, l.len());
        assert(content@ == l@.drop_first());
        match self.hunk.as_mut() {
            None => {
                return Err(malformed(n, "diff content outside of a hunk"));
            },
            Some(h) => {
                if c == ' ' {
                    if self.old_no == u32::MAX || self.new_no == u32::MAX {
                        return Ok(false);
                    }
                    let line = DiffLine {
                        kind: LineKind::Context,
                        content: string_of(content.as_slice()),
                        old_line: Some(self.old_no),
                        new_line: Some(self.new_no),
                        no_newline_at_eof: false,
                    };
                    proof {
                        lemma_push_lines(h.lines@, line);
                    }
                    h.lines.push(line);
                    self.old_no = self.old_no + 1;
                    self.new_no = self.new_no + 1;
                    Ok(true)
                } else if c == '+' {
                    if self.new_no == u32::MAX {
                        return Ok(false);
                    }
                    let line = DiffLine {
                        kind: LineKind::Added,
                        content: string_of(content.as_slice()),
                        old_line: None,
                        new_line: Some(self.new_no),
                        no_newline_at_eof: false,
                    };
                    proof {
                        lemma_push_lines(h.lines@, line);
                    }
                    h.lines.push(line);
                    self.new_no = self.new_no + 1;
                    Ok(true)
                } else if c == '-' {
                    if self.old_no == u32::MAX {
                        return Ok(false);
                    }
                    let line = DiffLine {
                        kind: LineKind::Removed,
                        content: string_of(content.as_slice()),
                        old_line: Some(self.old_no),
                        new_line: None,
                        no_newline_at_eof: false,
                    };
                    proof {
                        lemma_push_lines(h.lines@, line);
                    }
                    h.lines.push(line);
                    self.old_no = self.old_no + 1;
                    Ok(true)
                } else {
                    Err(ParseError::Malformed {
                        line: n,
                        message: message_with_char("unrecognized diff line prefix ", c),
                    })
                }
            },
        }
    }
}

/// Whether reading `text` would take a line number past what a `u32` holds.
pub open spec fn overflows(text: Seq<char>) -> bool {
    parse_outcome(text) is Overflow
}

/// Parses unified diff text into its files, hunks and lines; `None` where a
/// line number would no longer fit in 32 bits.
pub fn parse_checked(text: &str) -> (r: Option<Result<UnifiedDiff, ParseError>>)
    ensures
        r is None <==> overflows(text@),
        match r {
            Some(Ok(d)) => parse_outcome(text@) matches Outcome::Done(st) && st.files == d@,
            Some(Err(ParseError::Malformed { line, message })) => parse_outcome(text@) == Outcome::Failed(
                line as int,
                message@,
            ),
            None => true,
        },
{
    let chars = chars_of(text);
    let lines = split_lines(chars.as_slice());
    let ghost ls = lines_of(text@);
    let mut m = DiffMachine::new();
    let mut i: usize = 0;
    while i < lines.len()
        invariant
            i <= lines@.len(),
            lines@.len() == ls.len(),
            ls == lines_of(text@),
            forall|j: int| 0 <= j < lines@.len() ==> #[trigger] lines@[j]@ == ls[j],
            diff_run(ls, i as int) == Outcome::Done(m@),
        decreases lines.len() - i,
    {
        let r = m.step(lines[i].as_slice(), i + 1);
        match r {
            Ok(true) => {},
            Ok(false) => {
                proof {
                    lemma_run_stops(ls, i + 1, ls.len() as int);
                }
                return None;
            },
            Err(e) => {
                proof {
                    lemma_run_stops(ls, i + 1, ls.len() as int);
                }
                return Some(Err(e));
            },
        }
        i += 1;
    }
    finish_file(&mut m.files, &mut m.file, &mut m.hunk);
    Some(Ok(UnifiedDiff { files: m.files }))
}

/// Parses unified diff text into its files, hunks and lines.
pub fn parse(text: &str) -> (r: Result<UnifiedDiff, ParseError>)
    requires
        !overflows(text@),
    ensures
        match r {
            Ok(d) => parse_outcome(text@) matches Outcome::Done(st) && st.files == d@,
            Err(ParseError::Malformed { line, message }) => parse_outcome(text@) == Outcome::Failed(
                line as int,
                message@,
            ),
        },
{
    match parse_checked(text) {
        Some(r) => r,
        None => {
            assert(false);
            Err(ParseError::Malformed { line: 0, message: String::new() })
        },
    }
}

} // verus!
