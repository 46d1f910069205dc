//! The `$EDITOR` annotation format: a temp file that starts from raw unified
//! diff text (see the `diff` module) and lets whoever comments interleave
//! `>`-prefixed comment lines by hand.
//!
//! Sigil grammar (column 0 of the line):
//!
//! - `>`        new comment, target = a brand-new thread at this position
//! - `>>`       new comment, target = reply to the nearest preceding thread
//! - `>#@<ulid> <author> <timestamp>`  header line for a rendering of an
//!   existing comment; sets the nearest preceding thread to that thread
//! - `>#<text>` decorative body line for a rendered comment, ignored
//! - `>!<dir>`  directive on a brand-new thread (pairs with `>`)
//! - `>>!<dir>` directive on the nearest preceding thread (pairs with `>>`)
//! - `>[<id>` / `>]<id>`  opens/closes a range comment; bare `>[`/`>]` is
//!   the anonymous shorthand
//! - `\`        general escape for the next character
//!
//! A comment's anchor is inferred purely from where it is placed: the scope
//! always reflects the diff-structural thing most recently passed.
//!
//! The reading is stated line by line: [`ann_step`] says what each line does
//! to the reader's state, and [`ann_outcome`] is the whole reading, which
//! [`parse`] is proved to compute.

use crate::diff::{
    empty_file, file_or_new, finish_file, finish_hunk, finish_file_v, finish_hunk_v, first_word,
    hunk_header, is_header_noise, lemma_push_hunks, lemma_push_lines, lines_view, message_with,
    message_with_char, new_file, next_word, parse_hunk_header, parse_path, path_of, char_debug,
    str_debug, find_seq, find_chars, lemma_find_seq, DiffLine, DiffLineV, DiffMachine, DiffState, FileDiff, FileDiffV, Hunk, HunkV,
    LineKind, ParseError, UnifiedDiff, files_view,
};
use crate::text::{
    chars_of, copy_string, decimal, decimal_of, ends_with_str, has_prefix, has_suffix, is_str,
    join_lines, join_with_newlines, lines_of, first_index, lemma_first_index, opt_view, push_char, push_str, same_string, slice_of,
    split_lines, starts_with_str, string_of, strings_of, trim, trimmed, is_ascii_alnum, is_ws,
    is_whitespace,
};
use crate::anchor::{Absence, Placement, PlacementV};
use crate::expand::{has_row, has_row_spec, keeps, row_before, to_text_spec, want_of, want_spec, Want};
use crate::model::{Anchor, Side};
use crate::review::{Reply, Thread};
use vstd::prelude::*;

verus! {

#[derive(Debug, Clone, Copy, PartialEq, Eq, Hash, Structural)]
pub struct ThreadId(pub usize);

/// What a `>>`/`>>!<dir>` block targets: a thread created earlier in this
/// same editing session, or an existing thread rendered via `>#@` (by the
/// value of its ULID).
#[derive(Debug, Clone, Copy, PartialEq, Eq, Structural)]
pub enum ThreadRef {
    New(ThreadId),
    Existing(u128),
}

/// A run of lines in one version of a file. `len == 0` is an insertion
/// point: `start` is the line the (absent) text would sit *before*.
#[derive(Debug, Clone, Copy, PartialEq, Eq, Structural)]
pub struct LineSpan {
    pub start: u32,
    pub len: u32,
}

impl LineSpan {
    pub fn new(start: u32, len: u32) -> (r: Self)
        ensures
            r == (LineSpan { start, len }),
    {
        LineSpan { start, len }
    }
}

#[derive(Debug, Clone, PartialEq, Eq)]
pub enum AnchorScope {
    Global,
    File { file: String },
    /// What the diff position covers on each side. Never empty on both.
    Span { file: String, base: LineSpan, head: LineSpan },
}

#[derive(Debug, Clone, Copy, PartialEq, Eq, Structural)]
pub enum Target {
    /// `>` — a brand-new thread anchored at this position.
    New,
    /// `>>` — the nearest preceding thread context.
    Reply,
}

#[derive(Debug, Clone, PartialEq, Eq)]
pub enum Directive {
    Resolve,
    Reopen,
    /// `reanchor <thread-id>` always targets an explicit thread by id.
    Reanchor(String),
}

#[derive(Debug, Clone, PartialEq, Eq)]
pub enum Item {
    NewThread { id: ThreadId, scope: AnchorScope, body: Option<String>, directives: Vec<Directive> },
    Reply { target: ThreadRef, body: Option<String>, directives: Vec<Directive> },
}

#[derive(Debug, Clone, PartialEq, Eq)]
pub struct Parsed {
    pub diff: UnifiedDiff,
    pub items: Vec<Item>,
    /// Things that parsed fine but probably aren't what the user meant --
    /// currently a closed range that no comment was attached to.
    pub warnings: Vec<String>,
}

#[derive(Debug, Clone, PartialEq, Eq)]
pub enum AnnotationError {
    Malformed { line: usize, message: String },
}

impl AnnotationError {
    /// The error as the reader sees it: `"<line> 行目: <message>"`.
    pub fn to_text(&self) -> (r: String)
        ensures
            r@ == decimal(self->line as nat) + " 行目: "@ + self->message@,
    {
        match self {
            AnnotationError::Malformed { line, message } => {
                let mut s = decimal_of(*line);
                push_str(&mut s, " 行目: ");
                push_str(&mut s, message.as_str());
                s
            },
        }
    }
}

// ---- the mathematical view ---------------------------------------------------

pub enum ScopeV {
    Global,
    File { file: Seq<char> },
    Span { file: Seq<char>, base: LineSpan, head: LineSpan },
}

impl View for AnchorScope {
    type V = ScopeV;

    open spec fn view(&self) -> ScopeV {
        match self {
            AnchorScope::Global => ScopeV::Global,
            AnchorScope::File { file } => ScopeV::File { file: file@ },
            AnchorScope::Span { file, base, head } => ScopeV::Span { file: file@, base: *base, head: *head },
        }
    }
}

pub enum DirectiveV {
    Resolve,
    Reopen,
    Reanchor(Seq<char>),
}

impl View for Directive {
    type V = DirectiveV;

    open spec fn view(&self) -> DirectiveV {
        match self {
            Directive::Resolve => DirectiveV::Resolve,
            Directive::Reopen => DirectiveV::Reopen,
            Directive::Reanchor(id) => DirectiveV::Reanchor(id@),
        }
    }
}

pub open spec fn directives_view(v: Seq<Directive>) -> Seq<DirectiveV> {
    v.map_values(|d: Directive| d@)
}

pub enum ItemV {
    NewThread { id: ThreadId, scope: ScopeV, body: Option<Seq<char>>, directives: Seq<DirectiveV> },
    Reply { target: ThreadRef, body: Option<Seq<char>>, directives: Seq<DirectiveV> },
}

impl View for Item {
    type V = ItemV;

    open spec fn view(&self) -> ItemV {
        match self {
            Item::NewThread { id, scope, body, directives } => ItemV::NewThread {
                id: *id,
                scope: scope@,
                body: opt_view(*body),
                directives: directives_view(directives@),
            },
            Item::Reply { target, body, directives } => ItemV::Reply {
                target: *target,
                body: opt_view(*body),
                directives: directives_view(directives@),
            },
        }
    }
}

pub open spec fn items_view(v: Seq<Item>) -> Seq<ItemV> {
    v.map_values(|i: Item| i@)
}

// ---- small pieces ------------------------------------------------------------

/// `\X` means literal `X` (so `\\` is a literal backslash), and a trailing
/// lone `\` is kept as it is.
pub open spec fn unescaped(s: Seq<char>) -> Seq<char>
    decreases s.len(),
{
    if s.len() == 0 {
        seq![]
    } else if s[0] == '\\' {
        if s.len() == 1 {
            seq!['\\']
        } else {
            seq![s[1]] + unescaped(s.skip(2))
        }
    } else {
        seq![s[0]] + unescaped(s.drop_first())
    }
}

/// `\X` anywhere in comment text means literal `X` (so `\\` is a literal
/// backslash, and a trailing lone `\` is kept as-is). Applied only to
/// assembled comment/reply bodies, never to directive names/arguments.
pub fn unescape(s: &str) -> (r: String)
    ensures
        r@ == unescaped(s@),
{
    let cs = chars_of(s);
    let mut out = String::new();
    let mut i: usize = 0;
    assert(cs@.skip(0) == cs@);
    while i < cs.len()
        invariant
            i <= cs@.len(),
            cs@ == s@,
            out@ + unescaped(cs@.skip(i as int)) == unescaped(s@),
        decreases cs.len() - i,
    {
        let ghost rest = cs@.skip(i as int);
        if cs[i] == '\\' {
            if i + 1 < cs.len() {
                push_char(&mut out, cs[i + 1]);
                assert(rest.skip(2) == cs@.skip(i + 2));
                assert(out@ + unescaped(cs@.skip(i + 2)) =~= unescaped(s@));
                i += 2;
            } else {
                push_char(&mut out, '\\');
                assert(cs@.skip(i + 1).len() == 0);
                assert(out@ + unescaped(cs@.skip(i + 1)) =~= unescaped(s@));
                i += 1;
            }
        } else {
            push_char(&mut out, cs[i]);
            assert(rest.drop_first() == cs@.skip(i + 1));
            assert(out@ + unescaped(cs@.skip(i + 1)) =~= unescaped(s@));
            i += 1;
        }
    }
    assert(cs@.skip(i as int).len() == 0);
    assert(out@ =~= unescaped(s@));
    out
}

/// The text with one leading space taken off, if it has one.
pub open spec fn strip_space(s: Seq<char>) -> Seq<char> {
    if s.len() > 0 && s[0] == ' ' {
        s.drop_first()
    } else {
        s
    }
}

fn strip_one_leading_space(s: &[char]) -> (r: Vec<char>)
    ensures
        r@ == strip_space(s@),
{
    if s.len() > 0 && s[0] == ' ' {
        slice_of(s, 1, s.len())
    } else {
        slice_of(s, 0, s.len())
    }
}

/// What a file is called in scopes: its new path, else its old one.
pub open spec fn label(f: FileDiffV) -> Seq<char> {
    match f.new_path {
        Some(p) => p,
        None => match f.old_path {
            Some(p) => p,
            None => "?"@,
        },
    }
}

fn file_label(file: &FileDiff) -> (r: String)
    ensures
        r@ == label(file@),
{
    match &file.new_path {
        Some(p) => copy_string(p),
        None => match &file.old_path {
            Some(p) => copy_string(p),
            None => "?".to_owned(),
        },
    }
}

/// What a line that starts with `>` is, by what follows the `>`.
pub enum SigilV {
    Comment(Target, Seq<char>),
    Directive(Target, Seq<char>),
    RangeOpen(Seq<char>),
    RangeClose(Seq<char>),
    RenderedHeader(Seq<char>),
    RenderedBody(Seq<char>),
}

/// Recognition happens on the raw text before unescaping, so `\[`, `\]`,
/// `\>`, `\!` and `\#` never match a sigil.
pub open spec fn sigil_of(rest: Seq<char>) -> SigilV {
    if rest.len() > 0 && rest[0] == '[' {
        SigilV::RangeOpen(rest.drop_first())
    } else if rest.len() > 0 && rest[0] == ']' {
        SigilV::RangeClose(rest.drop_first())
    } else if rest.len() > 0 && rest[0] == '#' {
        let r = rest.drop_first();
        if r.len() > 0 && r[0] == '@' {
            SigilV::RenderedHeader(r.drop_first())
        } else {
            SigilV::RenderedBody(r)
        }
    } else if rest.len() > 0 && rest[0] == '>' {
        let r = rest.drop_first();
        if r.len() > 0 && r[0] == '!' {
            SigilV::Directive(Target::Reply, r.drop_first())
        } else {
            SigilV::Comment(Target::Reply, r)
        }
    } else if rest.len() > 0 && rest[0] == '!' {
        SigilV::Directive(Target::New, rest.drop_first())
    } else {
        SigilV::Comment(Target::New, rest)
    }
}

/// The kind of sigil, and where (in `rest`) the text it carries starts.
pub enum SigilKind {
    Comment(Target),
    Directive(Target),
    RangeOpen,
    RangeClose,
    RenderedHeader,
    RenderedBody,
}

pub open spec fn sigil_parts(rest: Seq<char>, k: SigilKind, at: int) -> SigilV {
    let t = rest.skip(at);
    match k {
        SigilKind::Comment(g) => SigilV::Comment(g, t),
        SigilKind::Directive(g) => SigilV::Directive(g, t),
        SigilKind::RangeOpen => SigilV::RangeOpen(t),
        SigilKind::RangeClose => SigilV::RangeClose(t),
        SigilKind::RenderedHeader => SigilV::RenderedHeader(t),
        SigilKind::RenderedBody => SigilV::RenderedBody(t),
    }
}

fn classify_comment(rest: &[char]) -> (r: (SigilKind, usize))
    ensures
        r.1 <= rest@.len(),
        sigil_parts(rest@, r.0, r.1 as int) == sigil_of(rest@),
{
    let n = rest.len();
    if n > 0 && rest[0] == '[' {
        (SigilKind::RangeOpen, 1)
    } else if n > 0 && rest[0] == ']' {
        (SigilKind::RangeClose, 1)
    } else if n > 0 && rest[0] == '#' {
        if n > 1 && rest[1] == '@' {
            assert(rest@.drop_first().skip(1) == rest@.skip(2));
            (SigilKind::RenderedHeader, 2)
        } else {
            (SigilKind::RenderedBody, 1)
        }
    } else if n > 0 && rest[0] == '>' {
        if n > 1 && rest[1] == '!' {
            assert(rest@.drop_first().skip(1) == rest@.skip(2));
            (SigilKind::Directive(Target::Reply), 2)
        } else {
            (SigilKind::Comment(Target::Reply), 1)
        }
    } else if n > 0 && rest[0] == '!' {
        (SigilKind::Directive(Target::New), 1)
    } else {
        assert(rest@.skip(0) == rest@);
        (SigilKind::Comment(Target::New), 0)
    }
}

/// A range id is empty or made of ASCII letters, digits, `-` and `_`.
pub open spec fn valid_range_id(id: Seq<char>) -> bool {
    forall|i: int| 0 <= i < id.len() ==> is_ascii_alnum(#[trigger] id[i]) || id[i] == '-' || id[i] == '_'
}

fn is_valid_range_id(id: &[char]) -> (r: bool)
    ensures
        r == valid_range_id(id@),
{
    for i in 0..id.len()
        invariant
            forall|j: int| 0 <= j < i ==> is_ascii_alnum(#[trigger] id@[j]) || id@[j] == '-' || id@[j] == '_',
    {
        let c = id[i];
        if !(('a' <= c && c <= 'z') || ('A' <= c && c <= 'Z') || ('0' <= c && c <= '9') || c == '-'
            || c == '_') {
            return false;
        }
    }
    true
}

/// What a directive's text says, or why it is refused.
pub open spec fn directive_of(target: Target, rest: Seq<char>) -> Result<DirectiveV, Seq<char>> {
    let r = trim(rest);
    let k = first_ws_index(r);
    let name = if k < r.len() { r.take(k) } else { r };
    let arg: Option<Seq<char>> = if k < r.len() { Some(trim(r.skip(k + 1))) } else { None };
    if name == "resolve"@ && arg is None {
        Ok(DirectiveV::Resolve)
    } else if name == "reopen"@ && arg is None {
        Ok(DirectiveV::Reopen)
    } else if name == "reanchor"@ && target == Target::New && (arg matches Some(id) && id.len() > 0) {
        Ok(DirectiveV::Reanchor(arg.unwrap()))
    } else if name == "reanchor"@ && target == Target::New && arg is None {
        Err("'reanchor' にはスレッド ID の引数が必要です"@)
    } else if name == "reanchor"@ && target == Target::Reply {
        Err("'reanchor' は '>>!reanchor' ではなく '>!reanchor <id>' と書いてください"@)
    } else {
        Err("ディレクティブが未知か、書式が不正です: "@ + str_debug(r))
    }
}

/// A directive that is `reopen` alone (white space around it aside) asks to
/// reopen the thread, and one that is `resolve` alone to resolve it, whatever
/// block it follows; the two are never the same request.
pub proof fn lemma_reopen_and_resolve(target: Target, reopen: Seq<char>, resolve: Seq<char>)
    requires
        trim(reopen) == "reopen"@,
        trim(resolve) == "resolve"@,
    ensures
        directive_of(target, reopen) == Ok::<DirectiveV, Seq<char>>(DirectiveV::Reopen),
        directive_of(target, resolve) == Ok::<DirectiveV, Seq<char>>(DirectiveV::Resolve),
        directive_of(target, reopen) != directive_of(target, resolve),
{
    reveal_strlit("reopen");
    reveal_strlit("resolve");
    let a = "reopen"@;
    let b = "resolve"@;
    assert forall|j: int| 0 <= j < a.len() implies !is_ws(#[trigger] a[j]) by {}
    assert forall|j: int| 0 <= j < b.len() implies !is_ws(#[trigger] b[j]) by {}
    lemma_first_ws_index(a, a.len() as int);
    lemma_first_ws_index(b, b.len() as int);
}

/// The index of the first white space in `s`, or its length.
pub open spec fn first_ws_index(s: Seq<char>) -> int
    decreases s.len(),
{
    if s.len() == 0 {
        0
    } else if is_ws(s[0]) {
        0
    } else {
        1 + first_ws_index(s.drop_first())
    }
}

pub proof fn lemma_first_ws_index(s: Seq<char>, k: int)
    requires
        0 <= k <= s.len(),
        forall|j: int| 0 <= j < k ==> !is_ws(#[trigger] s[j]),
        k < s.len() ==> is_ws(s[k]),
    ensures
        first_ws_index(s) == k,
    decreases s.len(),
{
    if s.len() > 0 && !is_ws(s[0]) {
        assert forall|j: int| 0 <= j < k - 1 implies !is_ws(#[trigger] s.drop_first()[j]) by {
            assert(s.drop_first()[j] == s[j + 1]);
        }
        lemma_first_ws_index(s.drop_first(), k - 1);
    }
}

fn new_directive_error(message: String) -> (r: Result<Directive, String>)
    ensures
        r matches Err(m) && m@ == message@,
{
    Err(message)
}

fn parse_directive(target: Target, rest: &[char]) -> (r: Result<Directive, String>)
    ensures
        match r {
            Ok(d) => directive_of(target, rest@) == Ok::<DirectiveV, Seq<char>>(d@),
            Err(m) => directive_of(target, rest@) == Err::<DirectiveV, Seq<char>>(m@),
        },
{
    let r = trimmed(rest);
    let mut k: usize = 0;
    while k < r.len() && !is_whitespace(r[k])
        invariant
            k <= r@.len(),
            forall|j: int| 0 <= j < k ==> !is_ws(#[trigger] r@[j]),
        decreases r.len() - k,
    {
        k += 1;
    }
    proof {
        lemma_first_ws_index(r@, k as int);
    }
    let name = if k < r.len() {
        slice_of(r.as_slice(), 0, k)
    } else {
        slice_of(r.as_slice(), 0, r.len())
    };
    assert(k < r@.len() ==> name@ == r@.take(k as int));
    assert(k >= r@.len() ==> name@ == r@);
    let arg: Option<Vec<char>> = if k < r.len() {
        let a = slice_of(r.as_slice(), k + 1, r.len());
        assert(a@ == r@.skip(k + 1));
        Some(trimmed(a.as_slice()))
    } else {
        None
    };
    proof {
        reveal_strlit("resolve");
        reveal_strlit("reopen");
        reveal_strlit("reanchor");
    }
    let is_resolve = is_str(name.as_slice(), "resolve");
    let is_reopen = is_str(name.as_slice(), "reopen");
    let is_reanchor = is_str(name.as_slice(), "reanchor");
    match arg {
        None => {
            if is_resolve {
                return Ok(Directive::Resolve);
            }
            if is_reopen {
                return Ok(Directive::Reopen);
            }
            if is_reanchor && target == Target::New {
                return Err("'reanchor' にはスレッド ID の引数が必要です".to_owned());
            }
        },
        Some(a) => {
            if is_reanchor && target == Target::New && a.len() > 0 {
                return Ok(Directive::Reanchor(string_of(a.as_slice())));
            }
        },
    }
    if is_reanchor && target == Target::Reply {
        return Err("'reanchor' は '>>!reanchor' ではなく '>!reanchor <id>' と書いてください".to_owned());
    }
    Err(message_with("ディレクティブが未知か、書式が不正です: ", r.as_slice()))
}

/// `"Binary files A and B differ"`: the two paths, each read as a `---` /
/// `+++` path is (`/dev/null` is no file).
pub open spec fn binary_paths(l: Seq<char>) -> Option<(Option<Seq<char>>, Option<Seq<char>>)> {
    if has_prefix(l, "Binary files "@) && has_suffix(l, " differ"@) && l.len() >= 20 {
        let mid = l.subrange(13, l.len() - 7);
        match find_seq(mid, " and "@) {
            Some(k) => Some((path_of(mid.take(k)), path_of(mid.skip(k + 5)))),
            None => None,
        }
    } else {
        None
    }
}

fn parse_binary_line(l: &[char]) -> (r: Option<(Option<String>, Option<String>)>)
    ensures
        match r {
            Some((a, b)) => binary_paths(l@) == Some((opt_view(a), opt_view(b))),
            None => binary_paths(l@) is None,
        },
{
    if !(starts_with_str(l, "Binary files ") && ends_with_str(l, " differ") && l.len() >= 20) {
        return None;
    }
    proof {
        reveal_strlit("Binary files ");
        reveal_strlit(" differ");
        reveal_strlit(" and ");
    }
    let mid = slice_of(l, 13, l.len() - 7);
    let sep = chars_of(" and ");
    match find_chars(mid.as_slice(), sep.as_slice()) {
        None => None,
        Some(k) => {
            proof {
                lemma_find_seq(mid@, sep@);
            }
            let a = slice_of(mid.as_slice(), 0, k);
            let b = slice_of(mid.as_slice(), k + 5, mid.len());
            assert(a@ == mid@.take(k as int));
            assert(b@ == mid@.skip(k + 5));
            Some((parse_path(a.as_slice()), parse_path(b.as_slice())))
        },
    }
}

// ---- thread ids --------------------------------------------------------------

/// The value of a character of Crockford's base 32, upper or lower case.
pub open spec fn crockford_digit(c: char) -> Option<int> {
    let u = if 'a' <= c && c <= 'z' {
        ((c as int) - 32) as char
    } else {
        c
    };
    if '0' <= u && u <= '9' {
        Some(u as int - '0' as int)
    } else if 'A' <= u && u <= 'H' {
        Some(u as int - 'A' as int + 10)
    } else if u == 'J' || u == 'K' {
        Some(u as int - 'J' as int + 18)
    } else if u == 'M' || u == 'N' {
        Some(u as int - 'M' as int + 20)
    } else if 'P' <= u && u <= 'T' {
        Some(u as int - 'P' as int + 22)
    } else if 'V' <= u && u <= 'Z' {
        Some(u as int - 'V' as int + 27)
    } else {
        None
    }
}

/// The number a string of Crockford base-32 digits writes.
pub open spec fn base32_value(s: Seq<char>) -> Option<int>
    decreases s.len(),
{
    if s.len() == 0 {
        Some(0)
    } else {
        match (base32_value(s.drop_last()), crockford_digit(s.last())) {
            (Some(v), Some(d)) => Some(v * 32 + d),
            _ => None,
        }
    }
}

/// A ULID's text: 26 Crockford base-32 digits, read into 128 bits (the two
/// bits the first digit has beyond them are dropped).
pub open spec fn ulid_of(s: Seq<char>) -> Option<u128> {
    if s.len() != 26 {
        None
    } else {
        match base32_value(s) {
            Some(v) => Some((v % (u128::MAX as int + 1)) as u128),
            None => None,
        }
    }
}

/// `Ulid::from_string` of the ulid crate (its `base32::decode`): `Ok` for
/// exactly 26 characters of Crockford's base 32 in either case, with the
/// value they write taken modulo 2^128; an error for any other text.
#[verifier::external_body]
fn ulid_from(s: &str) -> (r: Option<u128>)
    ensures
        r == ulid_of(s@),
{
    match ulid::Ulid::from_string(s) {
        Ok(u) => Some(u.0),
        Err(_) => None,
    }
}

/// The id token of a `>#@` header: its first word, or nothing.
pub open spec fn header_token(h: Seq<char>) -> Seq<char> {
    match first_word(h) {
        Some((w, _)) => w,
        None => seq![],
    }
}

fn header_id(h: &[char]) -> (r: Vec<char>)
    ensures
        r@ == header_token(h@),
{
    match next_word(h) {
        Some((a, b)) => slice_of(h, a, b),
        None => Vec::new(),
    }
}

// ---- the reading, line by line -----------------------------------------------

/// A comment block being gathered.
pub struct PendingV {
    pub target: Target,
    pub scope: ScopeV,
    pub lines: Seq<Seq<char>>,
    pub directives: Seq<DirectiveV>,
    pub start_line: int,
}

/// Where an open range started.
pub struct RangeStartV {
    pub file: Seq<char>,
    pub old: int,
    pub new: int,
}

/// What has been read so far: the diff, and the comments around it.
pub struct AnnState {
    pub d: DiffState,
    pub scope: ScopeV,
    /// The open ranges, by id, in the order they were opened.
    pub open: Seq<(Seq<char>, RangeStartV)>,
    pub next_id: int,
    pub last: Option<ThreadRef>,
    pub items: Seq<ItemV>,
    pub pending: Option<PendingV>,
    pub warnings: Seq<Seq<char>>,
    /// The range most recently closed (id, line of its `>]`) that no comment
    /// has been attached to yet.
    pub unused: Option<(Seq<char>, int)>,
}

pub enum AnnOutcome {
    Done(AnnState),
    /// A malformed line: its number and what is wrong.
    Failed(int, Seq<char>),
    /// A line number no longer fits in a `u32`.
    Overflow,
}

pub open spec fn ann_initial() -> AnnState {
    AnnState {
        d: DiffState { files: seq![], file: None, hunk: None, old_no: 0, new_no: 0 },
        scope: ScopeV::Global,
        open: seq![],
        next_id: 0,
        last: None,
        items: seq![],
        pending: None,
        warnings: seq![],
        unused: None,
    }
}

pub open spec fn no_reply_target() -> Seq<char> {
    "'>>' の返信先になるスレッド(新規または表示済み)が直前にありません"@
}

/// The pending block, if any, turned into an item.
pub open spec fn flush_v(st: AnnState) -> Result<AnnState, (int, Seq<char>)> {
    match st.pending {
        None => Ok(st),
        Some(p) => {
            let body = if p.lines.len() == 0 {
                None
            } else {
                Some(unescaped(join_lines(p.lines)))
            };
            match p.target {
                Target::New => {
                    let id = ThreadId(st.next_id as usize);
                    Ok(
                        AnnState {
                            items: st.items.push(
                                ItemV::NewThread { id, scope: p.scope, body, directives: p.directives },
                            ),
                            next_id: st.next_id + 1,
                            last: Some(ThreadRef::New(id)),
                            pending: None,
                            ..st
                        },
                    )
                },
                Target::Reply => match st.last {
                    None => Err((p.start_line, no_reply_target())),
                    Some(t) => Ok(
                        AnnState {
                            items: st.items.push(
                                ItemV::Reply { target: t, body, directives: p.directives },
                            ),
                            pending: None,
                            ..st
                        },
                    ),
                },
            }
        },
    }
}

/// The warning for a range closed with no comment on it.
pub open spec fn unused_warning(id: Seq<char>, line: int) -> Seq<char> {
    let name = if id.len() == 0 {
        "範囲"@
    } else {
        "範囲 '"@ + id + "'"@
    };
    decimal(line as nat) + " 行目: "@ + name + " は閉じられていますが、コメントがないため何も記録されません"@
}

/// The unused range, if any, warned about.
pub open spec fn warn_v(st: AnnState) -> AnnState {
    match st.unused {
        None => st,
        Some((id, line)) => AnnState {
            warnings: st.warnings.push(unused_warning(id, line)),
            unused: None,
            ..st
        },
    }
}

/// Where the range `id` is among the open ones.
pub open spec fn open_index(open: Seq<(Seq<char>, RangeStartV)>, id: Seq<char>) -> Option<int>
    decreases open.len(),
{
    if open.len() == 0 {
        None
    } else if open.last().0 == id {
        Some(open.len() - 1)
    } else {
        open_index(open.drop_last(), id)
    }
}

/// The span a hunk header gives one side: git writes a side with no lines
/// with its `start` one before the point, where a span has the line it sits
/// before.
pub open spec fn header_span(start: u32, len: u32) -> LineSpan {
    LineSpan { start: if len == 0 { (start + 1) as u32 } else { start }, len }
}

/// Whether a side's header span would not fit in a `u32`.
pub open spec fn header_span_overflows(start: u32, len: u32) -> bool {
    len == 0 && start == u32::MAX
}

/// A line that is part of the diff itself.
pub open spec fn structural_step(st: AnnState, l: Seq<char>, n: int) -> AnnOutcome {
    let d = st.d;
    if has_prefix(l, "diff --git "@) {
        AnnOutcome::Done(AnnState { d: DiffState { file: Some(empty_file()), ..finish_file_v(d) }, ..st })
    } else if is_header_noise(l) {
        AnnOutcome::Done(st)
    } else if has_prefix(l, "rename from "@) {
        let f = file_or_new(d);
        AnnOutcome::Done(
            AnnState {
                d: DiffState {
                    file: Some(FileDiffV { is_rename: true, old_path: Some(trim(l.skip(12))), ..f }),
                    ..d
                },
                ..st
            },
        )
    } else if has_prefix(l, "rename to "@) {
        let f = file_or_new(d);
        AnnOutcome::Done(
            AnnState {
                d: DiffState {
                    file: Some(FileDiffV { is_rename: true, new_path: Some(trim(l.skip(10))), ..f }),
                    ..d
                },
                ..st
            },
        )
    } else if binary_paths(l) is Some {
        let (op, np) = binary_paths(l).unwrap();
        let has_content = d.hunk is Some || (d.file matches Some(f) && (f.hunks.len() > 0
            || f.is_binary));
        let d1 = if has_content {
            finish_file_v(d)
        } else {
            d
        };
        let f = FileDiffV { is_binary: true, old_path: op, new_path: np, ..file_or_new(d1) };
        AnnOutcome::Done(
            AnnState { d: DiffState { file: Some(f), ..d1 }, scope: ScopeV::File { file: label(f) }, ..st },
        )
    } else if has_prefix(l, "--- "@) {
        let has_content = d.hunk is Some || (d.file matches Some(f) && (f.hunks.len() > 0
            || f.is_binary));
        let d1 = if d.file is None || has_content {
            DiffState { file: Some(empty_file()), ..finish_file_v(d) }
        } else {
            d
        };
        let f = file_or_new(d1);
        AnnOutcome::Done(
            AnnState {
                d: DiffState { file: Some(FileDiffV { old_path: path_of(l.skip(4)), ..f }), ..d1 },
                ..st
            },
        )
    } else if has_prefix(l, "+++ "@) {
        match d.file {
            None => AnnOutcome::Failed(n, "ファイルヘッダの外に '+++' 行があります"@),
            Some(f) => {
                let f2 = FileDiffV { new_path: path_of(l.skip(4)), ..f };
                AnnOutcome::Done(
                    AnnState {
                        d: DiffState { file: Some(f2), ..d },
                        scope: ScopeV::File { file: label(f2) },
                        ..st
                    },
                )
            },
        }
    } else if has_prefix(l, "@@ "@) || l == "@@"@ {
        let file = finish_hunk_v(d.file, d.hunk);
        match file {
            None => AnnOutcome::Failed(n, "ファイルの外にハンクヘッダがあります"@),
            Some(f) => match hunk_header(l) {
                Err(m) => AnnOutcome::Failed(n, m),
                Ok((a, b, c, e, h)) => if header_span_overflows(a, b) || header_span_overflows(c, e) {
                    AnnOutcome::Overflow
                } else {
                    AnnOutcome::Done(
                        AnnState {
                            d: DiffState {
                                files: d.files,
                                file: file,
                                hunk: Some(
                                    HunkV {
                                        old_start: a,
                                        old_lines: b,
                                        new_start: c,
                                        new_lines: e,
                                        section_heading: h,
                                        lines: seq![],
                                    },
                                ),
                                old_no: a as int,
                                new_no: c as int,
                            },
                            scope: ScopeV::Span {
                                file: label(f),
                                base: header_span(a, b),
                                head: header_span(c, e),
                            },
                            ..st
                        },
                    )
                },
            },
        }
    } else if l.len() > 0 && l[0] == '\\' {
        match d.hunk {
            None => AnnOutcome::Failed(n, "ハンクの外に '\\' マーカーがあります"@),
            Some(h) => if h.lines.len() > 0 {
                let last = h.lines.last();
                AnnOutcome::Done(
                    AnnState {
                        d: DiffState {
                            hunk: Some(
                                HunkV {
                                    lines: h.lines.update(
                                        h.lines.len() - 1,
                                        DiffLineV { no_newline_at_eof: true, ..last },
                                    ),
                                    ..h
                                },
                            ),
                            ..d
                        },
                        ..st
                    },
                )
            } else {
                AnnOutcome::Done(st)
            },
        }
    } else {
        match d.file {
            None => AnnOutcome::Failed(n, "ファイルの外に差分の内容があります"@),
            Some(f) => match d.hunk {
                None => AnnOutcome::Failed(n, "ハンクの外に差分の内容があります"@),
                Some(h) => content_step(st, f, h, l, n),
            },
        }
    }
}

/// A content line of a hunk (`l` is not empty).
pub open spec fn content_step(st: AnnState, f: FileDiffV, h: HunkV, l: Seq<char>, n: int) -> AnnOutcome {
    let d = st.d;
    let c = l[0];
    let content = l.drop_first();
    if c == ' ' {
        if d.old_no >= u32::MAX || d.new_no >= u32::MAX {
            AnnOutcome::Overflow
        } else {
            let line = DiffLineV {
                kind: LineKind::Context,
                content,
                old_line: Some(d.old_no as u32),
                new_line: Some(d.new_no as u32),
                no_newline_at_eof: false,
            };
            AnnOutcome::Done(
                AnnState {
                    d: DiffState {
                        hunk: Some(HunkV { lines: h.lines.push(line), ..h }),
                        old_no: d.old_no + 1,
                        new_no: d.new_no + 1,
                        ..d
                    },
                    scope: ScopeV::Span {
                        file: label(f),
                        base: LineSpan { start: d.old_no as u32, len: 1 },
                        head: LineSpan { start: d.new_no as u32, len: 1 },
                    },
                    ..st
                },
            )
        }
    } else if c == '+' {
        if d.new_no >= u32::MAX {
            AnnOutcome::Overflow
        } else {
            let line = DiffLineV {
                kind: LineKind::Added,
                content,
                old_line: None,
                new_line: Some(d.new_no as u32),
                no_newline_at_eof: false,
            };
            AnnOutcome::Done(
                AnnState {
                    d: DiffState {
                        hunk: Some(HunkV { lines: h.lines.push(line), ..h }),
                        new_no: d.new_no + 1,
                        ..d
                    },
                    scope: ScopeV::Span {
                        file: label(f),
                        base: LineSpan { start: d.old_no as u32, len: 0 },
                        head: LineSpan { start: d.new_no as u32, len: 1 },
                    },
                    ..st
                },
            )
        }
    } else if c == '-' {
        if d.old_no >= u32::MAX {
            AnnOutcome::Overflow
        } else {
            let line = DiffLineV {
                kind: LineKind::Removed,
                content,
                old_line: Some(d.old_no as u32),
                new_line: None,
                no_newline_at_eof: false,
            };
            AnnOutcome::Done(
                AnnState {
                    d: DiffState {
                        hunk: Some(HunkV { lines: h.lines.push(line), ..h }),
                        old_no: d.old_no + 1,
                        ..d
                    },
                    scope: ScopeV::Span {
                        file: label(f),
                        base: LineSpan { start: d.old_no as u32, len: 1 },
                        head: LineSpan { start: d.new_no as u32, len: 0 },
                    },
                    ..st
                },
            )
        }
    } else {
        AnnOutcome::Failed(n, "差分の行頭が認識できません: "@ + char_debug(c))
    }
}

/// A new pending block with one directive or one line.
pub open spec fn start_block(st: AnnState, t: Target, lines: Seq<Seq<char>>, dirs: Seq<DirectiveV>, n: int) -> AnnState {
    let s2 = if t == Target::New {
        AnnState { unused: None, ..st }
    } else {
        st
    };
    AnnState {
        pending: Some(PendingV { target: t, scope: s2.scope, lines, directives: dirs, start_line: n }),
        ..s2
    }
}

/// A line starting with `>`; `rest` is what follows the `>`.
pub open spec fn comment_step(st: AnnState, rest: Seq<char>, n: int) -> AnnOutcome {
    match sigil_of(rest) {
        SigilV::RangeOpen(id) => match flush_v(st) {
            Err((k, m)) => AnnOutcome::Failed(k, m),
            Ok(s) => if !valid_range_id(id) {
                AnnOutcome::Failed(n, "範囲の ID が不正です: "@ + str_debug(id))
            } else if open_index(s.open, id) is Some {
                AnnOutcome::Failed(n, "範囲 '"@ + id + "' はすでに開いています"@)
            } else {
                match s.d.file {
                    None => AnnOutcome::Failed(n, "ファイルの外に範囲マーカーがあります"@),
                    Some(f) => AnnOutcome::Done(
                        AnnState {
                            open: s.open.push(
                                (id, RangeStartV { file: label(f), old: s.d.old_no, new: s.d.new_no }),
                            ),
                            ..s
                        },
                    ),
                }
            },
        },
        SigilV::RangeClose(id) => match flush_v(st) {
            Err((k, m)) => AnnOutcome::Failed(k, m),
            Ok(s) => match open_index(s.open, id) {
                None => AnnOutcome::Failed(n, "範囲 '"@ + id + "' は開かれていません"@),
                Some(i) => {
                    let start = s.open[i].1;
                    let s2 = warn_v(AnnState { open: s.open.remove(i), ..s });
                    if s2.d.old_no < start.old || s2.d.new_no < start.new {
                        AnnOutcome::Overflow
                    } else {
                        let base = LineSpan { start: start.old as u32, len: (s2.d.old_no - start.old) as u32 };
                        let head = LineSpan { start: start.new as u32, len: (s2.d.new_no - start.new) as u32 };
                        if base.len == 0 && head.len == 0 {
                            AnnOutcome::Failed(n, "範囲 '"@ + id + "' が空です"@)
                        } else {
                            AnnOutcome::Done(
                                AnnState {
                                    unused: Some((id, n)),
                                    scope: ScopeV::Span { file: start.file, base, head },
                                    ..s2
                                },
                            )
                        }
                    }
                },
            },
        },
        SigilV::RenderedHeader(h) => match flush_v(st) {
            Err((k, m)) => AnnOutcome::Failed(k, m),
            Ok(s) => match ulid_of(header_token(h)) {
                None => AnnOutcome::Failed(
                    n,
                    "'>#@' ヘッダのスレッド ID が不正です: "@ + str_debug(header_token(h)),
                ),
                Some(v) => AnnOutcome::Done(AnnState { last: Some(ThreadRef::Existing(v)), ..s }),
            },
        },
        SigilV::RenderedBody(_) => match flush_v(st) {
            Err((k, m)) => AnnOutcome::Failed(k, m),
            Ok(s) => AnnOutcome::Done(s),
        },
        SigilV::Directive(t, r) => match directive_of(t, r) {
            Err(m) => AnnOutcome::Failed(n, m),
            Ok(dv) => match st.pending {
                Some(p) if p.target == t => AnnOutcome::Done(
                    AnnState { pending: Some(PendingV { directives: p.directives.push(dv), ..p }), ..st },
                ),
                _ => match flush_v(st) {
                    Err((k, m)) => AnnOutcome::Failed(k, m),
                    Ok(s) => AnnOutcome::Done(start_block(s, t, seq![], seq![dv], n)),
                },
            },
        },
        SigilV::Comment(t, text) => {
            let line = strip_space(text);
            match st.pending {
                Some(p) if p.target == t => AnnOutcome::Done(
                    AnnState { pending: Some(PendingV { lines: p.lines.push(line), ..p }), ..st },
                ),
                _ => match flush_v(st) {
                    Err((k, m)) => AnnOutcome::Failed(k, m),
                    Ok(s) => AnnOutcome::Done(start_block(s, t, seq![line], seq![], n)),
                },
            }
        },
    }
}

/// What line `l` (numbered `n`) does to the state `st`.
pub open spec fn ann_step(st: AnnState, l: Seq<char>, n: int) -> AnnOutcome {
    if l.len() == 0 {
        match flush_v(st) {
            Err((k, m)) => AnnOutcome::Failed(k, m),
            Ok(s) => AnnOutcome::Done(s),
        }
    } else if l[0] == '>' {
        comment_step(st, l.drop_first(), n)
    } else {
        match flush_v(warn_v(st)) {
            Err((k, m)) => AnnOutcome::Failed(k, m),
            Ok(s) => structural_step(s, l, n),
        }
    }
}

/// The first `k` lines read, from the start.
pub open spec fn ann_run(lines: Seq<Seq<char>>, k: int) -> AnnOutcome
    decreases k,
{
    if k <= 0 {
        AnnOutcome::Done(ann_initial())
    } else {
        match ann_run(lines, k - 1) {
            AnnOutcome::Done(st) => ann_step(st, lines[k - 1], k),
            other => other,
        }
    }
}

/// The end of the text: the last file finished, the last block taken, and
/// no range left open.
pub open spec fn ann_finish(st: AnnState, n: int) -> AnnOutcome {
    let st1 = AnnState { d: finish_file_v(st.d), ..st };
    match flush_v(st1) {
        Err((k, m)) => AnnOutcome::Failed(k, m),
        Ok(s) => {
            let s2 = warn_v(s);
            if s2.open.len() > 0 {
                AnnOutcome::Failed(n + 1, "範囲 '"@ + s2.open[0].0 + "' が閉じられていません"@)
            } else {
                AnnOutcome::Done(s2)
            }
        },
    }
}

/// The whole reading of `text`.
pub open spec fn ann_outcome(text: Seq<char>) -> AnnOutcome {
    let lines = lines_of(text);
    match ann_run(lines, lines.len() as int) {
        AnnOutcome::Done(st) => ann_finish(st, lines.len() as int),
        other => other,
    }
}

/// Once reading has stopped, it stays stopped the same way.
pub proof fn lemma_ann_run_stops(lines: Seq<Seq<char>>, k: int, j: int)
    requires
        0 <= k <= j,
        !(ann_run(lines, k) is Done),
    ensures
        ann_run(lines, j) == ann_run(lines, k),
    decreases j - k,
{
    if j > k {
        lemma_ann_run_stops(lines, k, j - 1);
    }
}

/// How many thread ids the reading may still hand out: the next one, and
/// one more for a pending new thread.
pub open spec fn budget(st: AnnState) -> int {
    st.next_id + (if st.pending matches Some(p) && p.target == Target::New {
        1int
    } else {
        0int
    })
}

pub proof fn lemma_flush_budget(st: AnnState)
    ensures
        flush_v(st) matches Ok(s) ==> budget(s) == budget(st) && s.pending is None,
{
}

/// Reading a line hands out at most one id more than one a line.
pub proof fn lemma_step_budget(st: AnnState, l: Seq<char>, n: int)
    requires
        budget(st) < n,
    ensures
        ann_step(st, l, n) matches AnnOutcome::Done(s2) ==> budget(s2) <= n,
{
    lemma_flush_budget(st);
    lemma_flush_budget(warn_v(st));
    if l.len() > 0 && l[0] != '>' {
        if let Ok(s) = flush_v(warn_v(st)) {
            lemma_structural_budget(s, l, n);
        }
    }
}

pub proof fn lemma_structural_budget(s: AnnState, l: Seq<char>, n: int)
    ensures
        structural_step(s, l, n) matches AnnOutcome::Done(s2) ==> s2.next_id == s.next_id && s2.pending
            == s.pending,
{
}

/// A line count is at most the number of characters.
pub proof fn lemma_lines_len(s: Seq<char>)
    ensures
        lines_of(s).len() <= s.len(),
    decreases s.len(),
{
    if s.len() > 0 {
        let k = first_index(s, '\n');
        lemma_first_index(s, '\n');
        if k < s.len() {
            lemma_lines_len(s.skip(k + 1));
        }
    }
}

struct PendingBlock {
    target: Target,
    scope: AnchorScope,
    lines: Vec<String>,
    directives: Vec<Directive>,
    start_line: usize,
}

impl View for PendingBlock {
    type V = PendingV;

    closed spec fn view(&self) -> PendingV {
        PendingV {
            target: self.target,
            scope: self.scope@,
            lines: strings_of(self.lines@),
            directives: directives_view(self.directives@),
            start_line: self.start_line as int,
        }
    }
}

struct RangeStart {
    file: String,
    old: u32,
    new: u32,
}

impl View for RangeStart {
    type V = RangeStartV;

    closed spec fn view(&self) -> RangeStartV {
        RangeStartV { file: self.file@, old: self.old as int, new: self.new as int }
    }
}

spec fn open_view(v: Seq<(String, RangeStart)>) -> Seq<(Seq<char>, RangeStartV)> {
    v.map_values(|e: (String, RangeStart)| (e.0@, e.1@))
}

/// What the reader holds while it reads.
struct AnnMachine {
    d: DiffMachine,
    scope: AnchorScope,
    open: Vec<(String, RangeStart)>,
    next_id: usize,
    last: Option<ThreadRef>,
    items: Vec<Item>,
    pending: Option<PendingBlock>,
    warnings: Vec<String>,
    unused: Option<(String, usize)>,
}

impl View for AnnMachine {
    type V = AnnState;

    closed spec fn view(&self) -> AnnState {
        AnnState {
            d: self.d@,
            scope: self.scope@,
            open: open_view(self.open@),
            next_id: self.next_id as int,
            last: self.last,
            items: items_view(self.items@),
            pending: match self.pending {
                Some(p) => Some(p@),
                None => None,
            },
            warnings: strings_of(self.warnings@),
            unused: match self.unused {
                Some((id, line)) => Some((id@, line as int)),
                None => None,
            },
        }
    }
}

fn copy_scope(s: &AnchorScope) -> (r: AnchorScope)
    ensures
        r@ == s@,
{
    match s {
        AnchorScope::Global => AnchorScope::Global,
        AnchorScope::File { file } => AnchorScope::File { file: copy_string(file) },
        AnchorScope::Span { file, base, head } => AnchorScope::Span {
            file: copy_string(file),
            base: *base,
            head: *head,
        },
    }
}

/// `pre`, the id, then `post`.
fn quoted(pre: &str, id: &[char], post: &str) -> (r: String)
    ensures
        r@ == pre@ + id@ + post@,
{
    let mut out = pre.to_owned();
    let t = string_of(id);
    push_str(&mut out, t.as_str());
    push_str(&mut out, post);
    out
}

fn malformed(line: usize, message: String) -> (r: AnnotationError)
    ensures
        r == (AnnotationError::Malformed { line, message }),
{
    AnnotationError::Malformed { line, message }
}

impl AnnMachine {
    fn new() -> (r: AnnMachine)
        ensures
            r@ == ann_initial(),
    {
        let r = AnnMachine {
            d: DiffMachine::new(),
            scope: AnchorScope::Global,
            open: Vec::new(),
            next_id: 0,
            last: None,
            items: Vec::new(),
            pending: None,
            warnings: Vec::new(),
            unused: None,
        };
        assert(r@.open =~= Seq::<(Seq<char>, RangeStartV)>::empty());
        assert(r@.items =~= Seq::<ItemV>::empty());
        assert(r@.warnings =~= Seq::<Seq<char>>::empty());
        r
    }

    /// Turns the pending block, if any, into an item.
    fn flush(&mut self) -> (r: Result<(), AnnotationError>)
        requires
            budget(old(self)@) <= usize::MAX,
        ensures
            match r {
                Ok(()) => flush_v(old(self)@) == Ok::<AnnState, (int, Seq<char>)>(final(self)@),
                Err(AnnotationError::Malformed { line, message }) => flush_v(old(self)@) == Err::<
                    AnnState,
                    (int, Seq<char>),
                >((line as int, message@)),
            },
    {
        let p = match self.pending.take() {
            None => {
                return Ok(());
            },
            Some(p) => p,
        };
        let body = if p.lines.len() == 0 {
            None
        } else {
            let joined = join_with_newlines(&p.lines);
            Some(unescape(joined.as_str()))
        };
        match p.target {
            Target::New => {
                let id = ThreadId(self.next_id);
                self.next_id = self.next_id + 1;
                let it = Item::NewThread { id, scope: p.scope, body, directives: p.directives };
                proof {
                    assert(items_view(self.items@.push(it)) =~= items_view(self.items@).push(it@));
                }
                self.items.push(it);
                self.last = Some(ThreadRef::New(id));
                Ok(())
            },
            Target::Reply => match self.last {
                None => Err(
                    malformed(
                        p.start_line,
                        "'>>' の返信先になるスレッド(新規または表示済み)が直前にありません".to_owned(),
                    ),
                ),
                Some(t) => {
                    let it = Item::Reply { target: t, body, directives: p.directives };
                    proof {
                        assert(items_view(self.items@.push(it)) =~= items_view(self.items@).push(it@));
                    }
                    self.items.push(it);
                    Ok(())
                },
            },
        }
    }

    /// Warns of the unused range, if any.
    fn warn(&mut self)
        ensures
            final(self)@ == warn_v(old(self)@),
    {
        if let Some((id, line)) = self.unused.take() {
            let mut w = decimal_of(line);
            push_str(&mut w, " 行目: ");
            if id.as_str().is_empty() {
                push_str(&mut w, "範囲");
            } else {
                push_str(&mut w, "範囲 '");
                push_str(&mut w, id.as_str());
                push_str(&mut w, "'");
            }
            push_str(&mut w, " は閉じられていますが、コメントがないため何も記録されません");
            proof {
                assert(w@ =~= unused_warning(id@, line as int));
                assert(strings_of(self.warnings@.push(w)) =~= strings_of(self.warnings@).push(w@));
            }
            self.warnings.push(w);
        }
    }

    /// Where the open range `id` is.
    fn open_find(&self, id: &[char]) -> (r: Option<usize>)
        ensures
            match r {
                Some(i) => i < self.open@.len() && open_index(open_view(self.open@), id@) == Some(
                    i as int,
                ) && self.open@[i as int].0@ == id@,
                None => open_index(open_view(self.open@), id@) is None,
            },
    {
        let key = string_of(id);
        let mut i = self.open.len();
        let ghost ov = open_view(self.open@);
        assert(ov.take(i as int) == ov);
        while i > 0
            invariant
                i <= self.open@.len(),
                key@ == id@,
                ov == open_view(self.open@),
                open_index(ov, id@) == open_index(ov.take(i as int), id@),
            decreases i,
        {
            assert(ov.take(i as int).last() == ov[i - 1]);
            assert(ov.take(i as int).drop_last() == ov.take(i - 1));
            if same_string(&self.open[i - 1].0, &key) {
                assert(ov[i - 1].0 == self.open@[i - 1].0@);
                return Some(i - 1);
            }
            i -= 1;
        }
        None
    }

    fn start_block(&mut self, t: Target, lines: Vec<String>, dirs: Vec<Directive>, n: usize)
        ensures
            final(self)@ == start_block(old(self)@, t, strings_of(lines@), directives_view(dirs@), n as int),
    {
        if t == Target::New {
            self.unused = None;
        }
        let scope = copy_scope(&self.scope);
        self.pending = Some(PendingBlock { target: t, scope, lines, directives: dirs, start_line: n });
    }

    /// Reads a line that starts with `>`; `rest` is what follows the `>`.
    /// `Ok(false)` when a range's length would be negative.
    fn comment(&mut self, rest: &[char], n: usize) -> (r: Result<bool, AnnotationError>)
        requires
            budget(old(self)@) < n,
        ensures
            match r {
                Ok(true) => comment_step(old(self)@, rest@, n as int) == AnnOutcome::Done(final(self)@),
                Ok(false) => comment_step(old(self)@, rest@, n as int) is Overflow,
                Err(AnnotationError::Malformed { line, message }) => comment_step(
                    old(self)@,
                    rest@,
                    n as int,
                ) == AnnOutcome::Failed(line as int, message@),
            },
    {
        let (kind, at) = classify_comment(rest);
        let t = slice_of(rest, at, rest.len());
        assert(t@ == rest@.skip(at as int));
        match kind {
            SigilKind::RangeOpen => {
                self.flush()?;
                if !is_valid_range_id(t.as_slice()) {
                    return Err(malformed(n, message_with("範囲の ID が不正です: ", t.as_slice())));
                }
                if self.open_find(t.as_slice()).is_some() {
                    return Err(malformed(n, quoted("範囲 '", t.as_slice(), "' はすでに開いています")));
                }
                let start = match &self.d.file {
                    None => {
                        return Err(malformed(n, "ファイルの外に範囲マーカーがあります".to_owned()));
                    },
                    Some(f) => RangeStart { file: file_label(f), old: self.d.old_no, new: self.d.new_no },
                };
                let e = (string_of(t.as_slice()), start);
                proof {
                    assert(open_view(self.open@.push(e)) =~= open_view(self.open@).push((e.0@, e.1@)));
                }
                self.open.push(e);

                Ok(true)
            },
            SigilKind::RangeClose => {
                self.flush()?;
                let i = match self.open_find(t.as_slice()) {
                    None => {
                        return Err(malformed(n, quoted("範囲 '", t.as_slice(), "' は開かれていません")));
                    },
                    Some(i) => i,
                };
                let ghost before = open_view(self.open@);
                let (id, start) = self.open.remove(i);
                proof {
                    assert(open_view(self.open@) =~= before.remove(i as int));
                }
                self.warn();
                if self.d.old_no < start.old || self.d.new_no < start.new {
                    return Ok(false);
                }
                let base = LineSpan::new(start.old, self.d.old_no - start.old);
                let head = LineSpan::new(start.new, self.d.new_no - start.new);
                if base.len == 0 && head.len == 0 {
                    return Err(malformed(n, quoted("範囲 '", t.as_slice(), "' が空です")));
                }
                self.unused = Some((id, n));
                self.scope = AnchorScope::Span { file: start.file, base, head };

                Ok(true)
            },
            SigilKind::RenderedHeader => {
                self.flush()?;
                let tok = header_id(t.as_slice());
                let tok_s = string_of(tok.as_slice());
                match ulid_from(tok_s.as_str()) {
                    None => Err(
                        malformed(
                            n,
                            message_with("'>#@' ヘッダのスレッド ID が不正です: ", tok.as_slice()),
                        ),
                    ),
                    Some(v) => {
                        self.last = Some(ThreadRef::Existing(v));

                        Ok(true)
                    },
                }
            },
            SigilKind::RenderedBody => {
                self.flush()?;

                Ok(true)
            },
            SigilKind::Directive(target) => {
                let dv = match parse_directive(target, t.as_slice()) {
                    Err(m) => {
                        return Err(malformed(n, m));
                    },
                    Ok(d) => d,
                };
                let same = match &self.pending {
                    Some(p) => p.target == target,
                    None => false,
                };
                if same {
                    let mut p = self.pending.take().unwrap();
                    proof {
                        assert(directives_view(p.directives@.push(dv)) =~= directives_view(
                            p.directives@,
                        ).push(dv@));
                    }
                    p.directives.push(dv);
                    self.pending = Some(p);
                } else {
                    self.flush()?;
                    let mut dirs: Vec<Directive> = Vec::new();
                    dirs.push(dv);
                    assert(directives_view(dirs@) =~= seq![dv@]);
                    let none: Vec<String> = Vec::new();
                    assert(strings_of(none@) =~= Seq::<Seq<char>>::empty());
                    self.start_block(target, none, dirs, n);
                }

                Ok(true)
            },
            SigilKind::Comment(target) => {
                let text = strip_one_leading_space(t.as_slice());
                let line = string_of(text.as_slice());
                let same = match &self.pending {
                    Some(p) => p.target == target,
                    None => false,
                };
                if same {
                    let mut p = self.pending.take().unwrap();
                    proof {
                        assert(strings_of(p.lines@.push(line)) =~= strings_of(p.lines@).push(line@));
                    }
                    p.lines.push(line);
                    self.pending = Some(p);
                } else {
                    self.flush()?;
                    let mut lines: Vec<String> = Vec::new();
                    lines.push(line);
                    assert(strings_of(lines@) =~= seq![line@]);
                    let none: Vec<Directive> = Vec::new();
                    assert(directives_view(none@) =~= Seq::<DirectiveV>::empty());
                    self.start_block(target, lines, none, n);
                }

                Ok(true)
            },
        }
    }

    /// Reads a line of the diff itself.
    fn structural(&mut self, l: &[char], n: usize) -> (r: Result<bool, AnnotationError>)
        requires
            l@.len() > 0,
        ensures
            match r {
                Ok(true) => structural_step(old(self)@, l@, n as int) == AnnOutcome::Done(final(self)@),
                Ok(false) => structural_step(old(self)@, l@, n as int) is Overflow,
                Err(AnnotationError::Malformed { line, message }) => structural_step(
                    old(self)@,
                    l@,
                    n as int,
                ) == AnnOutcome::Failed(line as int, message@),
            },
    {
        proof {
            reveal_strlit("diff --git ");
            reveal_strlit("@@");
        }
        if starts_with_str(l, "diff --git ") {
            self.d.start_file();
            return Ok(true);
        }
        if starts_with_str(l, "index ") || starts_with_str(l, "old mode ") || starts_with_str(
            l,
            "new mode ",
        ) || starts_with_str(l, "deleted file mode ") || starts_with_str(l, "new file mode ")
            || starts_with_str(l, "similarity index ") {
            return Ok(true);
        }
        if starts_with_str(l, "rename from ") {
            proof {
                reveal_strlit("rename from ");
            }
            let rest = slice_of(l, 12, l.len());
            assert(rest@ == l@.skip(12));
            let p = trimmed(rest.as_slice());
            let mut f = match self.d.file.take() {
                Some(f) => f,
                None => new_file(),
            };
            f.is_rename = true;
            f.old_path = Some(string_of(p.as_slice()));
            self.d.file = Some(f);
            return Ok(true);
        }
        if starts_with_str(l, "rename to ") {
            proof {
                reveal_strlit("rename to ");
            }
            let rest = slice_of(l, 10, l.len());
            assert(rest@ == l@.skip(10));
            let p = trimmed(rest.as_slice());
            let mut f = match self.d.file.take() {
                Some(f) => f,
                None => new_file(),
            };
            f.is_rename = true;
            f.new_path = Some(string_of(p.as_slice()));
            self.d.file = Some(f);
            return Ok(true);
        }
        if let Some((op, np)) = parse_binary_line(l) {
            let has_content = self.d.hunk.is_some() || match &self.d.file {
                Some(f) => f.hunks.len() > 0 || f.is_binary,
                None => false,
            };
            if has_content {
                finish_file(&mut self.d.files, &mut self.d.file, &mut self.d.hunk);
            }
            let mut f = match self.d.file.take() {
                Some(f) => f,
                None => new_file(),
            };
            f.is_binary = true;
            f.old_path = op;
            f.new_path = np;
            let lbl = file_label(&f);
            self.d.file = Some(f);
            self.scope = AnchorScope::File { file: lbl };
            return Ok(true);
        }
        if starts_with_str(l, "--- ") {
            proof {
                reveal_strlit("--- ");
            }
            let has_content = self.d.hunk.is_some() || match &self.d.file {
                Some(f) => f.hunks.len() > 0 || f.is_binary,
                None => false,
            };
            if self.d.file.is_none() || has_content {
                self.d.start_file();
            }
            let rest = slice_of(l, 4, l.len());
            assert(rest@ == l@.skip(4));
            let p = parse_path(rest.as_slice());
            let mut f = match self.d.file.take() {
                Some(f) => f,
                None => new_file(),
            };
            f.old_path = p;
            self.d.file = Some(f);
            return Ok(true);
        }
        if starts_with_str(l, "+++ ") {
            proof {
                reveal_strlit("+++ ");
            }
            let rest = slice_of(l, 4, l.len());
            assert(rest@ == l@.skip(4));
            let p = parse_path(rest.as_slice());
            let mut f = match self.d.file.take() {
                None => {
                    return Err(malformed(n, "ファイルヘッダの外に '+++' 行があります".to_owned()));
                },
                Some(f) => f,
            };
            f.new_path = p;
            let lbl = file_label(&f);
            self.d.file = Some(f);
            self.scope = AnchorScope::File { file: lbl };
            return Ok(true);
        }
        if starts_with_str(l, "@@ ") || is_str(l, "@@") {
            finish_hunk(&mut self.d.file, &mut self.d.hunk);
            let lbl = match &self.d.file {
                None => {
                    return Err(malformed(n, "ファイルの外にハンクヘッダがあります".to_owned()));
                },
                Some(f) => file_label(f),
            };
            let (a, b, c, e, h) = match parse_hunk_header(l, n) {
                Ok(v) => v,
                Err(ParseError::Malformed { line, message }) => {
                    return Err(malformed(line, message));
                },
            };
            if (b == 0 && a == u32::MAX) || (e == 0 && c == u32::MAX) {
                return Ok(false);
            }
            self.d.old_no = a;
            self.d.new_no = c;
            let hunk = Hunk {
                old_start: a,
                old_lines: b,
                new_start: c,
                new_lines: e,
                section_heading: h,
                lines: Vec::new(),
            };
            assert(hunk@.lines =~= Seq::<DiffLineV>::empty());
            self.d.hunk = Some(hunk);
            let base = LineSpan::new(if b == 0 { a + 1 } else { a }, b);
            let head = LineSpan::new(if e == 0 { c + 1 } else { c }, e);
            self.scope = AnchorScope::Span { file: lbl, base, head };
            return Ok(true);
        }
        if l[0] == '\\' {
            match self.d.hunk.as_mut() {
                None => {
                    return Err(malformed(n, "ハンクの外に '\\' マーカーがあります".to_owned()));
                },
                Some(h) => {
                    if h.lines.len() > 0 {
                        let k = h.lines.len() - 1;
                        let mut last = h.lines.pop().unwrap();
                        last.no_newline_at_eof = true;
                        h.lines.push(last);
                        proof {
                            assert(lines_view(h.lines@) =~= lines_view(
                                old(self).d.hunk.unwrap().lines@,
                            ).update(k as int, last@));
                        }
                    }
                    return Ok(true);
                },
            }
        }
        let lbl = match &self.d.file {
            None => {
                return Err(malformed(n, "ファイルの外に差分の内容があります".to_owned()));
            },
            Some(f) => file_label(f),
        };
        let c = l[0];
        let content = slice_of(l, 1, l.len());
        assert(content@ == l@.drop_first());
        let old_no = self.d.old_no;
        let new_no = self.d.new_no;
        match self.d.hunk.as_mut() {
            None => {
                return Err(malformed(n, "ハンクの外に差分の内容があります".to_owned()));
            },
            Some(h) => {
                if c == ' ' {
                    if old_no == u32::MAX || new_no == u32::MAX {
                        return Ok(false);
                    }
                    let line = DiffLine {
                        kind: LineKind::Context,
                        content: string_of(content.as_slice()),
                        old_line: Some(old_no),
                        new_line: Some(new_no),
                        no_newline_at_eof: false,
                    };
                    proof {
                        lemma_push_lines(h.lines@, line);
                    }
                    h.lines.push(line);
                    self.d.old_no = old_no + 1;
                    self.d.new_no = new_no + 1;
                    self.scope = AnchorScope::Span {
                        file: lbl,
                        base: LineSpan::new(old_no, 1),
                        head: LineSpan::new(new_no, 1),
                    };
                    Ok(true)
                } else if c == '+' {
                    if new_no == u32::MAX {
                        return Ok(false);
                    }
                    let line = DiffLine {
                        kind: LineKind::Added,
                        content: string_of(content.as_slice()),
                        old_line: None,
                        new_line: Some(new_no),
                        no_newline_at_eof: false,
                    };
                    proof {
                        lemma_push_lines(h.lines@, line);
                    }
                    h.lines.push(line);
                    self.d.new_no = new_no + 1;
                    self.scope = AnchorScope::Span {
                        file: lbl,
                        base: LineSpan::new(old_no, 0),
                        head: LineSpan::new(new_no, 1),
                    };
                    Ok(true)
                } else if c == '-' {
                    if old_no == u32::MAX {
                        return Ok(false);
                    }
                    let line = DiffLine {
                        kind: LineKind::Removed,
                        content: string_of(content.as_slice()),
                        old_line: Some(old_no),
                        new_line: None,
                        no_newline_at_eof: false,
                    };
                    proof {
                        lemma_push_lines(h.lines@, line);
                    }
                    h.lines.push(line);
                    self.d.old_no = old_no + 1;
                    self.scope = AnchorScope::Span {
                        file: lbl,
                        base: LineSpan::new(old_no, 1),
                        head: LineSpan::new(new_no, 0),
                    };
                    Ok(true)
                } else {
                    Err(malformed(n, message_with_char("差分の行頭が認識できません: ", c)))
                }
            },
        }
    }

    /// Reads line `l`, numbered `n`.
    fn step(&mut self, l: &[char], n: usize) -> (r: Result<bool, AnnotationError>)
        requires
            budget(old(self)@) < n,
        ensures
            match r {
                Ok(true) => ann_step(old(self)@, l@, n as int) == AnnOutcome::Done(final(self)@),
                Ok(false) => ann_step(old(self)@, l@, n as int) is Overflow,
                Err(AnnotationError::Malformed { line, message }) => ann_step(
                    old(self)@,
                    l@,
                    n as int,
                ) == AnnOutcome::Failed(line as int, message@),
            },
    {
        if l.len() == 0 {
            self.flush()?;
            return Ok(true);
        }
        if l[0] == '>' {
            let rest = slice_of(l, 1, l.len());
            assert(rest@ == l@.drop_first());
            return self.comment(rest.as_slice(), n);
        }
        self.warn();
        self.flush()?;
        self.structural(l, n)
    }
}

/// Whether reading `text` would take a line number past what a `u32` holds.
pub open spec fn ann_overflows(text: Seq<char>) -> bool {
    ann_outcome(text) is Overflow
}

/// Reads an annotated diff, as [`parse`] does; `None` where a line number or
/// a thread number would no longer fit.
pub fn parse_checked(text: &str) -> (r: Option<Result<Parsed, AnnotationError>>)
    ensures
        r is None <==> (ann_overflows(text@) || text@.len() >= usize::MAX),
        match r {
            Some(Ok(p)) => ann_outcome(text@) matches AnnOutcome::Done(st) && st.d.files == p.diff@
                && st.items == items_view(p.items@) && st.warnings == strings_of(p.warnings@),
            Some(Err(AnnotationError::Malformed { line, message })) => ann_outcome(text@)
                == AnnOutcome::Failed(line as int, message@),
            None => true,
        },
{
    let n = text.unicode_len();
    if n == usize::MAX {
        return None;
    }
    let chars = chars_of(text);
    let lines = split_lines(chars.as_slice());
    let ghost ls = lines_of(text@);
    proof {
        lemma_lines_len(text@);
    }
    let mut m = AnnMachine::new();
    let mut i: usize = 0;
    while i < lines.len()
        invariant
            i <= lines@.len(),
            lines@.len() == ls.len(),
            ls.len() <= text@.len() < usize::MAX,
            ls == lines_of(text@),
            forall|j: int| 0 <= j < lines@.len() ==> #[trigger] lines@[j]@ == ls[j],
            ann_run(ls, i as int) == AnnOutcome::Done(m@),
            budget(m@) <= i,
        decreases lines.len() - i,
    {
        proof {
            lemma_step_budget(m@, ls[i as int], i + 1);
        }
        let r = m.step(lines[i].as_slice(), i + 1);
        match r {
            Ok(true) => {},
            Ok(false) => {
                proof {
                    lemma_ann_run_stops(ls, i + 1, ls.len() as int);
                }
                return None;
            },
            Err(e) => {
                proof {
                    lemma_ann_run_stops(ls, i + 1, ls.len() as int);
                }
                return Some(Err(e));
            },
        }
        i += 1;
    }
    let ghost st = m@;
    finish_file(&mut m.d.files, &mut m.d.file, &mut m.d.hunk);
    assert(m@ == AnnState { d: finish_file_v(st.d), ..st });
    match m.flush() {
        Ok(()) => {},
        Err(e) => {
            return Some(Err(e));
        },
    }
    m.warn();
    if m.open.len() > 0 {
        let mut msg = "範囲 '".to_owned();
        push_str(&mut msg, m.open[0].0.as_str());
        push_str(&mut msg, "' が閉じられていません");
        return Some(Err(malformed(lines.len() + 1, msg)));
    }
    Some(Ok(Parsed { diff: UnifiedDiff { files: m.d.files }, items: m.items, warnings: m.warnings }))
}


/// Reads an annotated diff: the diff itself, the comments, replies and
/// directives interleaved with it, and the warnings; or the first malformed
/// line and what is wrong with it.
pub fn parse(text: &str) -> (r: Result<Parsed, AnnotationError>)
    requires
        !ann_overflows(text@),
        text@.len() < usize::MAX,
    ensures
        match r {
            Ok(p) => ann_outcome(text@) matches AnnOutcome::Done(st) && st.d.files == p.diff@
                && st.items == items_view(p.items@) && st.warnings == strings_of(p.warnings@),
            Err(AnnotationError::Malformed { line, message }) => ann_outcome(text@)
                == AnnOutcome::Failed(line as int, message@),
        },
{
    match parse_checked(text) {
        Some(r) => r,
        None => {
            assert(false);
            Err(malformed(0, String::new()))
        },
    }
}

// ---- writing threads into the buffer ------------------------------------------------

/// `n` Crockford base-32 digits of `v`, the last the lowest.
pub open spec fn ulid_digits(v: nat, n: nat) -> Seq<char>
    decreases n,
{
    if n == 0 {
        Seq::empty()
    } else {
        ulid_digits(v / 32, (n - 1) as nat).push("0123456789ABCDEFGHJKMNPQRSTVWXYZ"@[(v % 32) as int])
    }
}

/// A ULID's text: its 128 bits as 26 Crockford base-32 digits.
pub open spec fn ulid_text(id: u128) -> Seq<char> {
    ulid_digits(id as nat, 26)
}

/// `Ulid::to_string` of the ulid crate (its `base32::encode`): the value as
/// 26 digits of `0123456789ABCDEFGHJKMNPQRSTVWXYZ`, five bits each, the last
/// digit the lowest five bits.
#[verifier::external_body]
pub(crate) fn ulid_string(id: u128) -> (r: String)
    ensures
        r@ == ulid_text(id),
{
    ulid::Ulid(id).to_string()
}

/// Each of `lines` after `prefix`, on a line of its own.
pub open spec fn prefixed(lines: Seq<Seq<char>>, prefix: Seq<char>) -> Seq<char>
    decreases lines.len(),
{
    if lines.len() == 0 {
        Seq::empty()
    } else {
        prefixed(lines.drop_last(), prefix) + prefix + lines.last() + "\n"@
    }
}

/// One comment as the buffer shows it: a `>#@` header with the thread's id,
/// the author, the time and the tags, then what the lines were (`| `) and
/// the body, each line after `>#`.
pub open spec fn entry_text(
    id: u128,
    author: Seq<char>,
    at: Seq<char>,
    body: Seq<char>,
    tags: Seq<char>,
    quoted: Seq<Seq<char>>,
) -> Seq<char> {
    ">#@"@ + ulid_text(id) + " "@ + author + " "@ + at + tags + "\n"@ + prefixed(quoted, ">#| "@) + prefixed(
        lines_of(body),
        ">#"@,
    )
}

/// The tags of a thread's header: resolved, and why its lines are absent.
pub open spec fn tags_text(resolved: bool, kind: Option<Absence>) -> Seq<char> {
    (if resolved {
        " [解決済み]"@
    } else {
        Seq::empty()
    }) + match kind {
        Some(Absence::Deleted) => " [削除済み]"@,
        Some(Absence::NotYet) => " [まだない]"@,
        Some(Absence::Unknown) => " [不在]"@,
        None => Seq::empty(),
    }
}

pub open spec fn replies_text(id: u128, rs: Seq<Reply>) -> Seq<char>
    decreases rs.len(),
{
    if rs.len() == 0 {
        Seq::empty()
    } else {
        replies_text(id, rs.drop_last()) + entry_text(
            id,
            rs.last().author@,
            rs.last().created_at@,
            rs.last().body@,
            Seq::empty(),
            Seq::empty(),
        )
    }
}

/// A thread as the buffer shows it: its root comment (with what its lines
/// said, if they are absent) and its replies.
pub open spec fn block_text(t: Thread, absent: Option<(Seq<Seq<char>>, Absence)>) -> Seq<char> {
    entry_text(
        t.root_id,
        t.author@,
        t.created_at@,
        t.body@,
        tags_text(
            t.resolved,
            match absent {
                Some((_, k)) => Some(k),
                None => None,
            },
        ),
        match absent {
            Some((w, _)) => w,
            None => Seq::empty(),
        },
    ) + replies_text(t.root_id, t.replies@)
}

/// Where a thread is drawn in the buffer: where it was placed, unless that
/// needs a row (or file) the shown diff does not have -- then it is listed
/// as not placeable, with its file.
pub open spec fn effective(p: Placement, shown: Seq<FileDiffV>) -> PlacementV {
    match want_spec(p) {
        Some((f, _, row)) => if has_row_spec(shown, f, row) {
            p@
        } else {
            PlacementV::Unplaced { file: f }
        },
        None => p@,
    }
}

pub open spec fn effective_all(ps: Seq<Placement>, shown: Seq<FileDiffV>) -> Seq<PlacementV> {
    ps.map_values(|p: Placement| effective(p, shown))
}

/// The row after which a thread's card goes: its file, side and line.
pub open spec fn card_key(e: PlacementV) -> Option<(Seq<char>, Side, u32)> {
    match e {
        PlacementV::Line { file, side, line_end, .. } => Some((file, side, line_end)),
        PlacementV::Point { file, before, .. } => Some((file, Side::New, row_before(before))),
        _ => None,
    }
}

/// The positions of `eff` that `keep` holds of, in order.
pub open spec fn where_(eff: Seq<PlacementV>, keep: spec_fn(PlacementV) -> bool) -> Seq<int>
    decreases eff.len(),
{
    if eff.len() == 0 {
        Seq::empty()
    } else {
        let rest = where_(eff.drop_last(), keep);
        if keep(eff.last()) {
            rest.push(eff.len() - 1)
        } else {
            rest
        }
    }
}

/// The threads whose card goes after the row `key`.
pub open spec fn cards_at(eff: Seq<PlacementV>, key: (Seq<char>, Side, u32)) -> Seq<int> {
    where_(eff, |e: PlacementV| card_key(e) == Some(key))
}

/// The threads on the file `f` as a whole.
pub open spec fn file_cards(eff: Seq<PlacementV>, f: Seq<char>) -> Seq<int> {
    where_(eff, |e: PlacementV| e == PlacementV::File(f))
}

/// The threads on the change as a whole.
pub open spec fn global_cards(eff: Seq<PlacementV>) -> Seq<int> {
    where_(eff, |e: PlacementV| e is Global)
}

/// The not-placeable threads on the file `f`.
pub open spec fn unplaced_at(eff: Seq<PlacementV>, f: Seq<char>) -> Seq<int> {
    where_(eff, |e: PlacementV| e == PlacementV::Unplaced { file: f })
}

/// The files of the not-placeable threads, in the order they first come.
pub open spec fn unplaced_files(eff: Seq<PlacementV>) -> Seq<Seq<char>>
    decreases eff.len(),
{
    if eff.len() == 0 {
        Seq::empty()
    } else {
        let rest = unplaced_files(eff.drop_last());
        match eff.last() {
            PlacementV::Unplaced { file } => if rest.contains(file) {
                rest
            } else {
                rest.push(file)
            },
            _ => rest,
        }
    }
}

/// The not-placeable threads, file by file.
pub open spec fn unplaced_of(eff: Seq<PlacementV>, fs: Seq<Seq<char>>) -> Seq<int>
    decreases fs.len(),
{
    if fs.len() == 0 {
        Seq::empty()
    } else {
        unplaced_of(eff, fs.drop_last()) + unplaced_at(eff, fs.last())
    }
}

/// The ids of the threads whose lines begin on the row `key` (a range with
/// base-side rows too may begin on one of those).
pub open spec fn starts_of(e: PlacementV, id: u128, key: (Seq<char>, Side, u32)) -> Seq<u128> {
    match e {
        PlacementV::Line { file, side, line_start, old_range, .. } => (if (file, side, line_start) == key {
            seq![id]
        } else {
            Seq::empty()
        }) + match old_range {
            Some((os, _)) => if (file, Side::Old, os) == key {
                seq![id]
            } else {
                Seq::empty()
            },
            None => Seq::empty(),
        },
        _ => Seq::empty(),
    }
}

pub open spec fn starts_at(threads: Seq<Thread>, eff: Seq<PlacementV>, key: (Seq<char>, Side, u32)) -> Seq<u128>
    decreases eff.len(),
{
    if eff.len() == 0 {
        Seq::empty()
    } else {
        starts_at(threads, eff.drop_last(), key) + starts_of(eff.last(), threads[eff.len() - 1].root_id, key)
    }
}

/// The blocks of the threads at `idx`, in order, none with absent lines.
pub open spec fn blocks(threads: Seq<Thread>, idx: Seq<int>) -> Seq<char>
    decreases idx.len(),
{
    if idx.len() == 0 {
        Seq::empty()
    } else {
        blocks(threads, idx.drop_last()) + block_text(threads[idx.last()], None)
    }
}

/// What a point's lines said, and why they are absent.
pub open spec fn absent_of(e: PlacementV) -> Option<(Seq<Seq<char>>, Absence)> {
    match e {
        PlacementV::Point { was, kind, .. } => Some((was, kind)),
        _ => None,
    }
}

/// The cards at `idx` after a row: each closes its range first if its
/// range got an opening mark.
pub open spec fn cards_text(threads: Seq<Thread>, eff: Seq<PlacementV>, idx: Seq<int>, drawn: Seq<u128>) -> Seq<char>
    decreases idx.len(),
{
    if idx.len() == 0 {
        Seq::empty()
    } else {
        let i = idx.last();
        cards_text(threads, eff, idx.drop_last(), drawn) + (if drawn.contains(threads[i].root_id) {
            ">#]"@ + ulid_text(threads[i].root_id) + "\n"@
        } else {
            Seq::empty()
        }) + block_text(threads[i], absent_of(eff[i]))
    }
}

/// Which ranges have had their start reached, which got an opening mark,
/// and the marks written so far.
pub struct Marks {
    pub seen: Seq<u128>,
    pub drawn: Seq<u128>,
    pub text: Seq<char>,
}

/// Whether the card of thread `id` goes right after this row (one of the
/// row's places `keys`).
pub open spec fn card_here(threads: Seq<Thread>, eff: Seq<PlacementV>, f: Seq<char>, keys: Seq<(Side, u32)>, id: u128) -> bool {
    exists|k: int| 0 <= k < keys.len() && #[trigger] has_root(threads, cards_at(eff, (f, keys[k].0, keys[k].1)), id)
}

/// Whether one of the threads at `idx` is `id`.
pub open spec fn has_root(threads: Seq<Thread>, idx: Seq<int>, id: u128) -> bool {
    exists|j: int| 0 <= j < idx.len() && #[trigger] threads[idx[j]].root_id == id
}

pub open spec fn mark_ids(threads: Seq<Thread>, eff: Seq<PlacementV>, f: Seq<char>, keys: Seq<(Side, u32)>, ids: Seq<u128>, m: Marks) -> Marks
    decreases ids.len(),
{
    if ids.len() == 0 {
        m
    } else {
        let m1 = mark_ids(threads, eff, f, keys, ids.drop_last(), m);
        let id = ids.last();
        if m1.seen.contains(id) {
            m1
        } else if card_here(threads, eff, f, keys, id) {
            Marks { seen: m1.seen.push(id), ..m1 }
        } else {
            Marks { seen: m1.seen.push(id), drawn: m1.drawn.push(id), text: m1.text + ">#["@ + ulid_text(id) + "\n"@ }
        }
    }
}

/// The opening marks of the ranges that begin on this row, for the first
/// `n` of its places.
pub open spec fn mark_keys(threads: Seq<Thread>, eff: Seq<PlacementV>, f: Seq<char>, keys: Seq<(Side, u32)>, n: nat, m: Marks) -> Marks
    decreases n,
{
    if n == 0 {
        m
    } else {
        let m1 = mark_keys(threads, eff, f, keys, (n - 1) as nat, m);
        mark_ids(threads, eff, f, keys, starts_at(threads, eff, (f, keys[n - 1].0, keys[n - 1].1)), m1)
    }
}

/// Where the writing of the buffer is.
pub struct RenderState {
    pub out: Seq<char>,
    pub file: Option<Seq<char>>,
    pub has_hunks: bool,
    pub old_no: u32,
    pub new_no: u32,
    pub seen: Seq<u128>,
    pub drawn: Seq<u128>,
}

/// A row of file `f`: the opening marks of the ranges that begin on it, the
/// row, then the cards after it on each side in `emits`.
pub open spec fn row_step(
    threads: Seq<Thread>,
    eff: Seq<PlacementV>,
    st: RenderState,
    raw: Seq<char>,
    f: Seq<char>,
    keys: Seq<(Side, u32)>,
) -> RenderState {
    let m = mark_keys(
        threads,
        eff,
        f,
        keys,
        keys.len(),
        Marks { seen: st.seen, drawn: st.drawn, text: Seq::empty() },
    );
    let cards = if keys.len() == 2 {
        cards_text(threads, eff, cards_at(eff, (f, Side::New, st.new_no)), m.drawn) + cards_text(
            threads,
            eff,
            cards_at(eff, (f, Side::Old, st.old_no)),
            m.drawn,
        )
    } else {
        cards_text(threads, eff, cards_at(eff, (f, keys[0].0, keys[0].1)), m.drawn)
    };
    RenderState { out: st.out + m.text + raw + "\n"@ + cards, seen: m.seen, drawn: m.drawn, ..st }
}

/// A line between hunks that only says something about the file.
pub open spec fn render_noise(raw: Seq<char>) -> bool {
    is_header_noise(raw) || has_prefix(raw, "rename from "@) || has_prefix(raw, "rename to "@)
}

/// What one line of the shown diff does to the buffer.
pub open spec fn render_step(threads: Seq<Thread>, eff: Seq<PlacementV>, st: RenderState, raw: Seq<char>) -> RenderState {
    let out1 = st.out + raw + "\n"@;
    if has_prefix(raw, "diff --git "@) {
        RenderState { out: out1, file: None, has_hunks: false, ..st }
    } else if render_noise(raw) {
        RenderState { out: out1, ..st }
    } else if binary_paths(raw) is Some {
        let (o, n) = binary_paths(raw).unwrap();
        let file = match n {
            Some(x) => Some(x),
            None => o,
        };
        RenderState {
            out: out1 + match file {
                Some(f) => blocks(threads, file_cards(eff, f)),
                None => Seq::empty(),
            },
            file,
            has_hunks: false,
            ..st
        }
    } else if has_prefix(raw, "--- "@) {
        if st.file is None || st.has_hunks {
            RenderState { out: out1, file: None, has_hunks: false, ..st }
        } else {
            RenderState { out: out1, ..st }
        }
    } else if has_prefix(raw, "+++ "@) {
        let file = path_of(raw.skip(4));
        RenderState {
            out: out1 + match file {
                Some(f) => blocks(threads, file_cards(eff, f)),
                None => Seq::empty(),
            },
            file,
            ..st
        }
    } else if has_prefix(raw, "@@ "@) || raw == "@@"@ {
        match hunk_header(raw) {
            Ok((a, _, c, _, _)) => RenderState { out: out1, old_no: a, new_no: c, has_hunks: true, ..st },
            Err(_) => RenderState { out: out1, has_hunks: true, ..st },
        }
    } else if has_prefix(raw, "\\"@) || st.file is None || raw.len() == 0 {
        RenderState { out: out1, ..st }
    } else {
        let f = st.file.unwrap();
        if raw[0] == ' ' {
            let r = row_step(threads, eff, st, raw, f, seq![(Side::Old, st.old_no), (Side::New, st.new_no)]);
            RenderState { old_no: st.old_no.wrapping_add(1), new_no: st.new_no.wrapping_add(1), ..r }
        } else if raw[0] == '+' {
            let r = row_step(threads, eff, st, raw, f, seq![(Side::New, st.new_no)]);
            RenderState { new_no: st.new_no.wrapping_add(1), ..r }
        } else if raw[0] == '-' {
            let r = row_step(threads, eff, st, raw, f, seq![(Side::Old, st.old_no)]);
            RenderState { old_no: st.old_no.wrapping_add(1), ..r }
        } else {
            RenderState { out: out1, ..st }
        }
    }
}

pub open spec fn render_run(threads: Seq<Thread>, eff: Seq<PlacementV>, st: RenderState, lines: Seq<Seq<char>>) -> RenderState
    decreases lines.len(),
{
    if lines.len() == 0 {
        st
    } else {
        render_step(threads, eff, render_run(threads, eff, st, lines.drop_last()), lines.last())
    }
}

/// The line that heads the threads that could not be placed.
pub open spec fn unplaced_banner() -> Seq<char> {
    ">#--- 現在の差分に配置できなかった既存コメントです。>!reanchor <id> で位置を指定できます ---\n"@
}

/// What comes before the diff: the threads that could not be placed (after
/// a line saying so), then those on the change as a whole.
pub open spec fn render_prelude(threads: Seq<Thread>, eff: Seq<PlacementV>) -> Seq<char> {
    let unplaced = unplaced_of(eff, unplaced_files(eff));
    (if unplaced.len() > 0 {
        unplaced_banner() + blocks(threads, unplaced)
    } else {
        Seq::empty()
    }) + blocks(threads, global_cards(eff))
}

/// The buffer: the shown diff `text`, with each thread written after the
/// row (or file header) it is about.
pub open spec fn render_spec(text: Seq<char>, threads: Seq<Thread>, eff: Seq<PlacementV>) -> Seq<char> {
    let init = RenderState {
        out: render_prelude(threads, eff),
        file: None,
        has_hunks: false,
        old_no: 0,
        new_no: 0,
        seen: Seq::empty(),
        drawn: Seq::empty(),
    };
    render_run(threads, eff, init, lines_of(text)).out
}


// ---- the writing, executed -----------------------------------------------------------

pub open spec fn placements_view(ps: Seq<Placement>) -> Seq<PlacementV> {
    ps.map_values(|p: Placement| p@)
}

pub open spec fn positions_view(v: Seq<usize>) -> Seq<int> {
    v.map_values(|i: usize| i as int)
}

fn push_lines(out: &mut String, lines: &Vec<Vec<char>>, prefix: &str)
    ensures
        final(out)@ == old(out)@ + prefixed(lines@.map_values(|l: Vec<char>| l@), prefix@),
{
    let ghost start = out@;
    let ghost lv = lines@.map_values(|l: Vec<char>| l@);
    for i in 0..lines.len()
        invariant
            lv == lines@.map_values(|l: Vec<char>| l@),
            out@ == start + prefixed(lv.take(i as int), prefix@),
    {
        proof {
            assert(lv.take(i + 1).drop_last() =~= lv.take(i as int));
            assert(lv.take(i + 1).last() == lines@[i as int]@);
        }
        push_str(out, prefix);
        crate::text::push_chars(out, lines[i].as_slice());
        push_str(out, "\n");
        proof {
            assert(out@ =~= start + prefixed(lv.take(i as int), prefix@) + prefix@ + lv[i as int] + "\n"@);
        }
    }
    proof {
        assert(lv.take(lv.len() as int) =~= lv);
    }
}

fn push_strings(out: &mut String, lines: &Vec<String>, prefix: &str)
    ensures
        final(out)@ == old(out)@ + prefixed(crate::anchor::strings_view(lines@), prefix@),
{
    let ghost start = out@;
    let ghost lv = crate::anchor::strings_view(lines@);
    for i in 0..lines.len()
        invariant
            lv == crate::anchor::strings_view(lines@),
            out@ == start + prefixed(lv.take(i as int), prefix@),
    {
        proof {
            assert(lv.take(i + 1).drop_last() =~= lv.take(i as int));
            assert(lv.take(i + 1).last() == lines@[i as int]@);
        }
        push_str(out, prefix);
        push_str(out, lines[i].as_str());
        push_str(out, "\n");
        proof {
            assert(out@ =~= start + prefixed(lv.take(i as int), prefix@) + prefix@ + lv[i as int] + "\n"@);
        }
    }
    proof {
        assert(lv.take(lv.len() as int) =~= lv);
    }
}

fn push_entry(out: &mut String, id: u128, author: &str, at: &str, body: &str, tags: &str, quoted: &Vec<String>)
    ensures
        final(out)@ == old(out)@ + entry_text(id, author@, at@, body@, tags@, crate::anchor::strings_view(quoted@)),
{
    let ghost start = out@;
    push_str(out, ">#@");
    let u = ulid_string(id);
    push_str(out, u.as_str());
    push_str(out, " ");
    push_str(out, author);
    push_str(out, " ");
    push_str(out, at);
    push_str(out, tags);
    push_str(out, "\n");
    let ghost head = out@;
    push_strings(out, quoted, ">#| ");
    let ghost mid = out@;
    let ls = split_lines(chars_of(body).as_slice());
    proof {
        assert(ls@.map_values(|l: Vec<char>| l@) =~= lines_of(body@));
    }
    push_lines(out, &ls, ">#");
    proof {
        assert(head =~= start + (">#@"@ + ulid_text(id) + " "@ + author@ + " "@ + at@ + tags@ + "\n"@));
        assert(out@ =~= start + entry_text(id, author@, at@, body@, tags@, crate::anchor::strings_view(quoted@)));
    }
}

fn tags_string(resolved: bool, kind: Option<Absence>) -> (r: String)
    ensures
        r@ == tags_text(resolved, kind),
{
    let mut s = String::new();
    if resolved {
        push_str(&mut s, " [解決済み]");
    }
    let ghost first = s@;
    match kind {
        Some(Absence::Deleted) => push_str(&mut s, " [削除済み]"),
        Some(Absence::NotYet) => push_str(&mut s, " [まだない]"),
        Some(Absence::Unknown) => push_str(&mut s, " [不在]"),
        None => {},
    }
    proof {
        assert(first =~= (if resolved {
            " [解決済み]"@
        } else {
            Seq::empty()
        }));
        assert(kind is None ==> s@ =~= first + Seq::<char>::empty());
    }
    s
}

pub open spec fn absent_view(absent: Option<(&Vec<String>, Absence)>) -> Option<(Seq<Seq<char>>, Absence)> {
    match absent {
        Some((w, k)) => Some((crate::anchor::strings_view(w@), k)),
        None => None,
    }
}

fn push_block(out: &mut String, t: &Thread, absent: Option<(&Vec<String>, Absence)>)
    ensures
        final(out)@ == old(out)@ + block_text(*t, absent_view(absent)),
{
    let ghost start = out@;
    let kind = match absent {
        Some((_, k)) => Some(k),
        None => None,
    };
    let tags = tags_string(t.resolved, kind);
    let empty: Vec<String> = Vec::new();
    let quoted: &Vec<String> = match absent {
        Some((w, _)) => w,
        None => &empty,
    };
    proof {
        assert(crate::anchor::strings_view(empty@) =~= Seq::<Seq<char>>::empty());
        reveal_strlit("");
    }
    push_entry(out, t.root_id, t.author.as_str(), t.created_at.as_str(), t.body.as_str(), tags.as_str(), quoted);
    let ghost first = out@;
    for i in 0..t.replies.len()
        invariant
            crate::anchor::strings_view(empty@) == Seq::<Seq<char>>::empty(),
            ""@ == Seq::<char>::empty(),
            out@ == first + replies_text(t.root_id, t.replies@.take(i as int)),
    {
        proof {
            assert(t.replies@.take(i + 1).drop_last() =~= t.replies@.take(i as int));
            assert(t.replies@.take(i + 1).last() == t.replies@[i as int]);
        }
        let r = &t.replies[i];
        push_entry(out, t.root_id, r.author.as_str(), r.created_at.as_str(), r.body.as_str(), "", &empty);
        proof {
            assert(out@ =~= first + replies_text(t.root_id, t.replies@.take(i + 1)));
        }
    }
    proof {
        assert(t.replies@.take(t.replies@.len() as int) =~= t.replies@);
    }
}

pub fn copy_strs(v: &Vec<String>) -> (r: Vec<String>)
    ensures
        crate::anchor::strings_view(r@) == crate::anchor::strings_view(v@),
{
    let mut out: Vec<String> = Vec::new();
    for i in 0..v.len()
        invariant
            crate::anchor::strings_view(out@) == crate::anchor::strings_view(v@.take(i as int)),
    {
        let ghost before = out@;
        out.push(copy_string(&v[i]));
        proof {
            assert(crate::anchor::strings_view(out@) =~= crate::anchor::strings_view(before).push(v@[i as int]@));
            assert(crate::anchor::strings_view(v@.take(i + 1)) =~= crate::anchor::strings_view(v@.take(i as int)).push(
                v@[i as int]@,
            ));
        }
    }
    proof {
        assert(v@.take(v@.len() as int) =~= v@);
    }
    out
}

fn copy_placement(p: &Placement) -> (r: Placement)
    ensures
        r@ == p@,
{
    match p {
        Placement::Global => Placement::Global,
        Placement::File(f) => Placement::File(copy_string(f)),
        Placement::Line { file, side, line_start, line_end, old_range } => Placement::Line {
            file: copy_string(file),
            side: *side,
            line_start: *line_start,
            line_end: *line_end,
            old_range: *old_range,
        },
        Placement::Point { file, before, was, kind } => Placement::Point {
            file: copy_string(file),
            before: *before,
            was: copy_strs(was),
            kind: *kind,
        },
        Placement::Unplaced { file } => Placement::Unplaced { file: copy_string(file) },
    }
}

pub fn effective_of(p: &Placement, shown: &UnifiedDiff) -> (r: Placement)
    ensures
        r@ == effective(*p, shown@),
{
    match want_of(p) {
        Some(w) => if has_row(shown, &w) {
            copy_placement(p)
        } else {
            Placement::Unplaced { file: w.file }
        },
        None => copy_placement(p),
    }
}

fn row_before_of(before: u32) -> (r: u32)
    ensures
        r == row_before(before),
{
    if before >= 2 {
        before - 1
    } else {
        1
    }
}

/// The positions whose card goes after the row (`f`, `side`, `line`).
fn cards_at_of(eff: &Vec<Placement>, f: &str, side: Side, line: u32) -> (r: Vec<usize>)
    ensures
        positions_view(r@) == cards_at(placements_view(eff@), (f@, side, line)),
        forall|j: int| 0 <= j < r@.len() ==> #[trigger] r@[j] < eff@.len(),
{
    let ghost pv = placements_view(eff@);
    let ghost key = (f@, side, line);
    let ghost keep = |e: PlacementV| card_key(e) == Some(key);
    let key_s = f.to_owned();
    let mut out: Vec<usize> = Vec::new();
    for i in 0..eff.len()
        invariant
            pv == placements_view(eff@),
            key == (f@, side, line),
            keep == (|e: PlacementV| card_key(e) == Some(key)),
            key_s@ == f@,
            positions_view(out@) == where_(pv.take(i as int), keep),
            forall|j: int| 0 <= j < out@.len() ==> #[trigger] out@[j] < i,
    {
        proof {
            assert(pv.take(i + 1).drop_last() =~= pv.take(i as int));
            assert(pv.take(i + 1).last() == eff@[i as int]@);
        }
        let hit = match &eff[i] {
            Placement::Line { file, side: s, line_end, .. } => same_string(file, &key_s) && *s == side && *line_end
                == line,
            Placement::Point { file, before, .. } => same_string(file, &key_s) && side == Side::New && line
                == row_before_of(*before),
            _ => false,
        };
        proof {
            assert(hit == keep(pv[i as int]));
        }
        if hit {
            let ghost before = out@;
            out.push(i);
            proof {
                assert(positions_view(out@) =~= positions_view(before).push(i as int));
            }
        }
    }
    proof {
        assert(pv.take(pv.len() as int) =~= pv);
    }
    out
}

/// The positions of the threads on file `f` as a whole (`unplaced`: those
/// listed as not placeable on it), or on the change as a whole (`f` none).
fn positions_of(eff: &Vec<Placement>, f: Option<&str>, unplaced: bool) -> (r: Vec<usize>)
    ensures
        positions_view(r@) == match f {
            Some(f) => if unplaced {
                unplaced_at(placements_view(eff@), f@)
            } else {
                file_cards(placements_view(eff@), f@)
            },
            None => global_cards(placements_view(eff@)),
        },
        forall|j: int| 0 <= j < r@.len() ==> #[trigger] r@[j] < eff@.len(),
{
    let ghost pv = placements_view(eff@);
    let ghost keep: spec_fn(PlacementV) -> bool = match f {
        Some(f) => if unplaced {
            |e: PlacementV| e == PlacementV::Unplaced { file: f@ }
        } else {
            |e: PlacementV| e == PlacementV::File(f@)
        },
        None => |e: PlacementV| e is Global,
    };
    let key_s: String = match f {
        Some(x) => x.to_owned(),
        None => String::new(),
    };
    let mut out: Vec<usize> = Vec::new();
    for i in 0..eff.len()
        invariant
            pv == placements_view(eff@),
            f matches Some(x) ==> key_s@ == x@,
            keep == match f {
                Some(f) => if unplaced {
                    |e: PlacementV| e == PlacementV::Unplaced { file: f@ }
                } else {
                    |e: PlacementV| e == PlacementV::File(f@)
                },
                None => |e: PlacementV| e is Global,
            },
            positions_view(out@) == where_(pv.take(i as int), keep),
            forall|j: int| 0 <= j < out@.len() ==> #[trigger] out@[j] < i,
    {
        proof {
            assert(pv.take(i + 1).drop_last() =~= pv.take(i as int));
            assert(pv.take(i + 1).last() == eff@[i as int]@);
        }
        let hit = match f {
            Some(_) => if unplaced {
                match &eff[i] {
                    Placement::Unplaced { file } => same_string(file, &key_s),
                    _ => false,
                }
            } else {
                match &eff[i] {
                    Placement::File(file) => same_string(file, &key_s),
                    _ => false,
                }
            },
            None => match &eff[i] {
                Placement::Global => true,
                _ => false,
            },
        };
        proof {
            assert(hit == keep(pv[i as int]));
        }
        if hit {
            let ghost before = out@;
            out.push(i);
            proof {
                assert(positions_view(out@) =~= positions_view(before).push(i as int));
            }
        }
    }
    proof {
        assert(pv.take(pv.len() as int) =~= pv);
    }
    out
}

/// The files of the not-placeable threads, in the order they first come.
fn unplaced_files_of(eff: &Vec<Placement>) -> (r: Vec<String>)
    ensures
        crate::anchor::strings_view(r@) == unplaced_files(placements_view(eff@)),
{
    let ghost pv = placements_view(eff@);
    let mut out: Vec<String> = Vec::new();
    for i in 0..eff.len()
        invariant
            pv == placements_view(eff@),
            crate::anchor::strings_view(out@) == unplaced_files(pv.take(i as int)),
    {
        proof {
            assert(pv.take(i + 1).drop_last() =~= pv.take(i as int));
            assert(pv.take(i + 1).last() == eff@[i as int]@);
        }
        match &eff[i] {
            Placement::Unplaced { file } => {
                let mut found = false;
                for j in 0..out.len()
                    invariant
                        found <==> exists|k: int| 0 <= k < j && out@[k]@ == file@,
                {
                    if same_string(&out[j], file) {
                        found = true;
                    }
                }
                proof {
                    let sv = crate::anchor::strings_view(out@);
                    if found {
                        let k = choose|k: int| 0 <= k < out@.len() && out@[k]@ == file@;
                        assert(sv[k] == file@);
                    } else {
                        assert forall|k: int| 0 <= k < sv.len() implies sv[k] != file@ by {
                            assert(sv[k] == out@[k]@);
                        }
                    }
                }
                if !found {
                    let ghost before = out@;
                    out.push(copy_string(file));
                    proof {
                        assert(crate::anchor::strings_view(out@) =~= crate::anchor::strings_view(before).push(file@));
                    }
                }
            },
            _ => {},
        }
    }
    proof {
        assert(pv.take(pv.len() as int) =~= pv);
    }
    out
}

/// The ids of the threads whose lines begin on the row (`f`, `side`,
/// `line`).
fn starts_at_of(threads: &Vec<Thread>, eff: &Vec<Placement>, f: &str, side: Side, line: u32) -> (r: Vec<u128>)
    requires
        threads@.len() == eff@.len(),
    ensures
        r@ == starts_at(threads@, placements_view(eff@), (f@, side, line)),
{
    let ghost pv = placements_view(eff@);
    let ghost key = (f@, side, line);
    let key_s = f.to_owned();
    let mut out: Vec<u128> = Vec::new();
    for i in 0..eff.len()
        invariant
            threads@.len() == eff@.len(),
            pv == placements_view(eff@),
            key == (f@, side, line),
            key_s@ == f@,
            out@ == starts_at(threads@, pv.take(i as int), key),
    {
        proof {
            assert(pv.take(i + 1).drop_last() =~= pv.take(i as int));
            assert(pv.take(i + 1).last() == eff@[i as int]@);
        }
        let ghost before = out@;
        let id = threads[i].root_id;
        match &eff[i] {
            Placement::Line { file, side: s, line_start, old_range, .. } => {
                let same = same_string(file, &key_s);
                if same && *s == side && *line_start == line {
                    out.push(id);
                }
                let ghost mid = out@;
                match old_range {
                    Some((os, _)) => {
                        if same && side == Side::Old && *os == line {
                            out.push(id);
                        }
                    },
                    None => {},
                }
                proof {
                    assert(out@ =~= before + starts_of(pv[i as int], id, key));
                }
            },
            _ => {
                proof {
                    assert(out@ =~= before + starts_of(pv[i as int], id, key));
                }
            },
        }
    }
    proof {
        assert(pv.take(pv.len() as int) =~= pv);
    }
    out
}

fn push_blocks(out: &mut String, threads: &Vec<Thread>, idx: &Vec<usize>)
    requires
        forall|j: int| 0 <= j < idx@.len() ==> #[trigger] idx@[j] < threads@.len(),
    ensures
        final(out)@ == old(out)@ + blocks(threads@, positions_view(idx@)),
{
    let ghost start = out@;
    let ghost iv = positions_view(idx@);
    for k in 0..idx.len()
        invariant
            iv == positions_view(idx@),
            forall|j: int| 0 <= j < idx@.len() ==> #[trigger] idx@[j] < threads@.len(),
            out@ == start + blocks(threads@, iv.take(k as int)),
    {
        proof {
            assert(iv.take(k + 1).drop_last() =~= iv.take(k as int));
            assert(iv.take(k + 1).last() == idx@[k as int] as int);
        }
        let i = idx[k];
        push_block(out, &threads[i], None);
        proof {
            assert(out@ =~= start + blocks(threads@, iv.take(k + 1)));
        }
    }
    proof {
        assert(iv.take(iv.len() as int) =~= iv);
    }
}

fn vec_has(v: &Vec<u128>, x: u128) -> (r: bool)
    ensures
        r == v@.contains(x),
{
    for i in 0..v.len()
        invariant
            forall|j: int| 0 <= j < i ==> v@[j] != x,
    {
        if v[i] == x {
            proof {
                assert(v@[i as int] == x);
            }
            return true;
        }
    }
    false
}

#[verifier::rlimit(40)]
fn push_cards(out: &mut String, threads: &Vec<Thread>, eff: &Vec<Placement>, idx: &Vec<usize>, drawn: &Vec<u128>)
    requires
        threads@.len() == eff@.len(),
        forall|j: int| 0 <= j < idx@.len() ==> #[trigger] idx@[j] < threads@.len(),
    ensures
        final(out)@ == old(out)@ + cards_text(threads@, placements_view(eff@), positions_view(idx@), drawn@),
{
    let ghost start = out@;
    let ghost iv = positions_view(idx@);
    let ghost pv = placements_view(eff@);
    for k in 0..idx.len()
        invariant
            iv == positions_view(idx@),
            pv == placements_view(eff@),
            threads@.len() == eff@.len(),
            forall|j: int| 0 <= j < idx@.len() ==> #[trigger] idx@[j] < threads@.len(),
            out@ == start + cards_text(threads@, pv, iv.take(k as int), drawn@),
    {
        proof {
            assert(iv.take(k + 1).drop_last() =~= iv.take(k as int));
            assert(iv.take(k + 1).last() == idx@[k as int] as int);
        }
        let i = idx[k];
        let t = &threads[i];
        let ghost mid = out@;
        if vec_has(drawn, t.root_id) {
            push_str(out, ">#]");
            let u = ulid_string(t.root_id);
            push_str(out, u.as_str());
            push_str(out, "\n");
        }
        let ghost closed = out@;
        proof {
            assert(closed =~= mid + (if drawn@.contains(t.root_id) {
                ">#]"@ + ulid_text(t.root_id) + "\n"@
            } else {
                Seq::empty()
            }));
        }
        match &eff[i] {
            Placement::Point { was, kind, .. } => push_block(out, t, Some((was, *kind))),
            _ => push_block(out, t, None),
        }
        proof {
            assert(absent_of(pv[i as int]) == absent_view(match eff@[i as int] {
                Placement::Point { was, kind, .. } => Some((&was, kind)),
                _ => None,
            }));
            assert(out@ =~= start + cards_text(threads@, pv, iv.take(k + 1), drawn@));
        }
    }
    proof {
        assert(iv.take(iv.len() as int) =~= iv);
    }
}


/// Whether the card of thread `id` goes right after this row.
fn card_here_of(threads: &Vec<Thread>, eff: &Vec<Placement>, f: &str, keys: &Vec<(Side, u32)>, id: u128) -> (r: bool)
    requires
        threads@.len() == eff@.len(),
    ensures
        r == card_here(threads@, placements_view(eff@), f@, keys@, id),
{
    let ghost pv = placements_view(eff@);
    for k in 0..keys.len()
        invariant
            threads@.len() == eff@.len(),
            pv == placements_view(eff@),
            forall|a: int| 0 <= a < k ==> !#[trigger] has_root(threads@, cards_at(pv, (f@, keys@[a].0, keys@[a].1)), id),
    {
        let (side, line) = keys[k];
        let idx = cards_at_of(eff, f, side, line);
        let ghost iv = positions_view(idx@);
        assert(iv == cards_at(pv, (f@, keys@[k as int].0, keys@[k as int].1)));
        for j in 0..idx.len()
            invariant
                threads@.len() == eff@.len(),
                pv == placements_view(eff@),
                k < keys@.len(),
                iv == positions_view(idx@),
                iv == cards_at(pv, (f@, keys@[k as int].0, keys@[k as int].1)),
                forall|q: int| 0 <= q < idx@.len() ==> #[trigger] idx@[q] < eff@.len(),
                forall|q: int| 0 <= q < j ==> threads@[#[trigger] iv[q]].root_id != id,
        {
            if threads[idx[j]].root_id == id {
                proof {
                    assert(iv[j as int] == idx@[j as int] as int);
                    assert(threads@[iv[j as int]].root_id == id);
                    assert(has_root(threads@, iv, id));
                    assert(card_here(threads@, pv, f@, keys@, id));
                }
                return true;
            }
        }
        proof {
            assert(!has_root(threads@, iv, id));
        }
    }
    false
}

/// The opening marks of the ranges that begin on this row, recording which
/// were reached and which got a mark.
fn mark_row(
    threads: &Vec<Thread>,
    eff: &Vec<Placement>,
    f: &str,
    keys: &Vec<(Side, u32)>,
    seen: &mut Vec<u128>,
    drawn: &mut Vec<u128>,
) -> (r: String)
    requires
        threads@.len() == eff@.len(),
    ensures
        (Marks { seen: final(seen)@, drawn: final(drawn)@, text: r@ }) == mark_keys(
            threads@,
            placements_view(eff@),
            f@,
            keys@,
            keys@.len(),
            Marks { seen: old(seen)@, drawn: old(drawn)@, text: Seq::empty() },
        ),
{
    let ghost pv = placements_view(eff@);
    let ghost m0 = Marks { seen: seen@, drawn: drawn@, text: Seq::<char>::empty() };
    let mut text = String::new();
    for k in 0..keys.len()
        invariant
            threads@.len() == eff@.len(),
            pv == placements_view(eff@),
            (Marks { seen: seen@, drawn: drawn@, text: text@ }) == mark_keys(threads@, pv, f@, keys@, k as nat, m0),
    {
        let (side, line) = keys[k];
        let ids = starts_at_of(threads, eff, f, side, line);
        let ghost mk = Marks { seen: seen@, drawn: drawn@, text: text@ };
        for j in 0..ids.len()
            invariant
                threads@.len() == eff@.len(),
                pv == placements_view(eff@),
                (Marks { seen: seen@, drawn: drawn@, text: text@ }) == mark_ids(
                    threads@,
                    pv,
                    f@,
                    keys@,
                    ids@.take(j as int),
                    mk,
                ),
        {
            proof {
                assert(ids@.take(j + 1).drop_last() =~= ids@.take(j as int));
                assert(ids@.take(j + 1).last() == ids@[j as int]);
            }
            let id = ids[j];
            if !vec_has(seen, id) {
                seen.push(id);
                if !card_here_of(threads, eff, f, keys, id) {
                    drawn.push(id);
                    push_str(&mut text, ">#[");
                    let u = ulid_string(id);
                    push_str(&mut text, u.as_str());
                    push_str(&mut text, "\n");
                    proof {
                        let m1 = mark_ids(threads@, pv, f@, keys@, ids@.take(j as int), mk);
                        assert(text@ =~= m1.text + ">#["@ + ulid_text(id) + "\n"@);
                    }
                }
            }
        }
        proof {
            assert(ids@.take(ids@.len() as int) =~= ids@);
        }
    }
    text
}

/// The writer's state, as it runs.
pub struct RenderMachine {
    pub out: String,
    pub file: Option<String>,
    pub has_hunks: bool,
    pub old_no: u32,
    pub new_no: u32,
    pub seen: Vec<u128>,
    pub drawn: Vec<u128>,
}

impl View for RenderMachine {
    type V = RenderState;

    open spec fn view(&self) -> RenderState {
        RenderState {
            out: self.out@,
            file: opt_view(self.file),
            has_hunks: self.has_hunks,
            old_no: self.old_no,
            new_no: self.new_no,
            seen: self.seen@,
            drawn: self.drawn@,
        }
    }
}

fn is_render_noise(l: &[char]) -> (r: bool)
    ensures
        r == render_noise(l@),
{
    starts_with_str(l, "index ") || starts_with_str(l, "old mode ") || starts_with_str(l, "new mode ")
        || starts_with_str(l, "deleted file mode ") || starts_with_str(l, "new file mode ") || starts_with_str(
        l,
        "similarity index ",
    ) || starts_with_str(l, "rename from ") || starts_with_str(l, "rename to ")
}

impl RenderMachine {
    /// A row of file `f` with its places `keys`.
    fn row(&mut self, threads: &Vec<Thread>, eff: &Vec<Placement>, raw: &[char], f: &String, keys: Vec<(Side, u32)>)
        requires
            threads@.len() == eff@.len(),
            keys@.len() == 1 || (keys@.len() == 2 && keys@ == seq![(Side::Old, old(self).old_no), (Side::New, old(self).new_no)]),
        ensures
            final(self)@ == row_step(threads@, placements_view(eff@), old(self)@, raw@, f@, keys@),
    {
        let ghost st = self@;
        let marks = mark_row(threads, eff, f.as_str(), &keys, &mut self.seen, &mut self.drawn);
        push_str(&mut self.out, marks.as_str());
        crate::text::push_chars(&mut self.out, raw);
        push_str(&mut self.out, "\n");
        let ghost before_cards = self.out@;
        if keys.len() == 2 {
            let a = cards_at_of(eff, f.as_str(), Side::New, self.new_no);
            push_cards(&mut self.out, threads, eff, &a, &self.drawn);
            let b = cards_at_of(eff, f.as_str(), Side::Old, self.old_no);
            push_cards(&mut self.out, threads, eff, &b, &self.drawn);
        } else {
            let (side, line) = keys[0];
            let a = cards_at_of(eff, f.as_str(), side, line);
            push_cards(&mut self.out, threads, eff, &a, &self.drawn);
        }
        proof {
            let r = row_step(threads@, placements_view(eff@), st, raw@, f@, keys@);
            assert(self.out@ =~= r.out);
        }
    }

    /// What one line of the shown diff does to the buffer.
    fn step(&mut self, threads: &Vec<Thread>, eff: &Vec<Placement>, raw: &[char])
        requires
            threads@.len() == eff@.len(),
        ensures
            final(self)@ == render_step(threads@, placements_view(eff@), old(self)@, raw@),
    {
        let ghost st = self@;
        let ghost pv = placements_view(eff@);
        if starts_with_str(raw, "diff --git ") {
            crate::text::push_chars(&mut self.out, raw);
            push_str(&mut self.out, "\n");
            self.file = None;
            self.has_hunks = false;
            return;
        }
        if is_render_noise(raw) {
            crate::text::push_chars(&mut self.out, raw);
            push_str(&mut self.out, "\n");
            return;
        }
        match parse_binary_line(raw) {
            Some((o, n)) => {
                crate::text::push_chars(&mut self.out, raw);
                push_str(&mut self.out, "\n");
                let file = match n {
                    Some(x) => Some(x),
                    None => o,
                };
                match &file {
                    Some(f) => {
                        let idx = positions_of(eff, Some(f.as_str()), false);
                        push_blocks(&mut self.out, threads, &idx);
                    },
                    None => {
                        proof {
                            assert(self.out@ =~= st.out + raw@ + "\n"@ + Seq::<char>::empty());
                        }
                    },
                }
                self.file = file;
                self.has_hunks = false;
                return;
            },
            None => {},
        }
        if starts_with_str(raw, "--- ") {
            crate::text::push_chars(&mut self.out, raw);
            push_str(&mut self.out, "\n");
            if self.file.is_none() || self.has_hunks {
                self.file = None;
                self.has_hunks = false;
            }
            return;
        }
        if starts_with_str(raw, "+++ ") {
            crate::text::push_chars(&mut self.out, raw);
            push_str(&mut self.out, "\n");
            proof {
                reveal_strlit("+++ ");
            }
            let rest = slice_of(raw, 4, raw.len());
            let file = parse_path(rest.as_slice());
            match &file {
                Some(f) => {
                    let idx = positions_of(eff, Some(f.as_str()), false);
                    push_blocks(&mut self.out, threads, &idx);
                },
                None => {
                    proof {
                        assert(self.out@ =~= st.out + raw@ + "\n"@ + Seq::<char>::empty());
                    }
                },
            }
            self.file = file;
            return;
        }
        if starts_with_str(raw, "@@ ") || is_str(raw, "@@") {
            crate::text::push_chars(&mut self.out, raw);
            push_str(&mut self.out, "\n");
            match parse_hunk_header(raw, 0) {
                Ok((a, _, c, _, _)) => {
                    self.old_no = a;
                    self.new_no = c;
                },
                Err(_) => {},
            }
            self.has_hunks = true;
            return;
        }
        if starts_with_str(raw, "\\") || self.file.is_none() || raw.len() == 0 {
            crate::text::push_chars(&mut self.out, raw);
            push_str(&mut self.out, "\n");
            return;
        }
        let f = copy_string(self.file.as_ref().unwrap());
        if raw[0] == ' ' {
            let keys = vec![(Side::Old, self.old_no), (Side::New, self.new_no)];
            proof {
                assert(keys@ =~= seq![(Side::Old, st.old_no), (Side::New, st.new_no)]);
            }
            self.row(threads, eff, raw, &f, keys);
            self.old_no = self.old_no.wrapping_add(1);
            self.new_no = self.new_no.wrapping_add(1);
        } else if raw[0] == '+' {
            let keys = vec![(Side::New, self.new_no)];
            proof {
                assert(keys@ =~= seq![(Side::New, st.new_no)]);
            }
            self.row(threads, eff, raw, &f, keys);
            self.new_no = self.new_no.wrapping_add(1);
        } else if raw[0] == '-' {
            let keys = vec![(Side::Old, self.old_no)];
            proof {
                assert(keys@ =~= seq![(Side::Old, st.old_no)]);
            }
            self.row(threads, eff, raw, &f, keys);
            self.old_no = self.old_no.wrapping_add(1);
        } else {
            crate::text::push_chars(&mut self.out, raw);
            push_str(&mut self.out, "\n");
        }
    }
}


/// The buffer for threads already placed: the shown diff `text` with each
/// thread written where its placement (as the shown diff can draw it)
/// puts it.
pub fn render_placed(text: &str, shown: &UnifiedDiff, threads: &Vec<Thread>, placements: &Vec<Placement>) -> (r: String)
    requires
        threads@.len() == placements@.len(),
    ensures
        r@ == render_spec(text@, threads@, effective_all(placements@, shown@)),
{
    let ghost ev = effective_all(placements@, shown@);
    let mut eff: Vec<Placement> = Vec::new();
    for i in 0..placements.len()
        invariant
            ev == effective_all(placements@, shown@),
            placements_view(eff@) == ev.take(i as int),
    {
        let e = effective_of(&placements[i], shown);
        let ghost before = eff@;
        eff.push(e);
        proof {
            assert(placements_view(eff@) =~= placements_view(before).push(e@));
            assert(ev.take(i + 1) =~= ev.take(i as int).push(ev[i as int]));
        }
    }
    proof {
        assert(ev.take(ev.len() as int) =~= ev);
    }
    let ghost pv = placements_view(eff@);
    // The threads that cannot be placed, file by file, then those on the
    // whole change.
    let files = unplaced_files_of(&eff);
    let ghost fv = crate::anchor::strings_view(files@);
    let mut unplaced: Vec<usize> = Vec::new();
    for k in 0..files.len()
        invariant
            pv == placements_view(eff@),
            fv == crate::anchor::strings_view(files@),
            positions_view(unplaced@) == unplaced_of(pv, fv.take(k as int)),
            forall|j: int| 0 <= j < unplaced@.len() ==> #[trigger] unplaced@[j] < eff@.len(),
    {
        proof {
            assert(fv.take(k + 1).drop_last() =~= fv.take(k as int));
            assert(fv.take(k + 1).last() == files@[k as int]@);
        }
        let more = positions_of(&eff, Some(files[k].as_str()), true);
        let ghost before = unplaced@;
        for q in 0..more.len()
            invariant
                forall|j: int| 0 <= j < more@.len() ==> #[trigger] more@[j] < eff@.len(),
                forall|j: int| 0 <= j < before.len() ==> #[trigger] before[j] < eff@.len(),
                unplaced@ == before + more@.take(q as int),
        {
            unplaced.push(more[q]);
            proof {
                assert(unplaced@ =~= before + more@.take(q + 1));
            }
        }
        proof {
            assert(more@.take(more@.len() as int) =~= more@);
            assert(positions_view(unplaced@) =~= positions_view(before) + positions_view(more@));
            assert forall|j: int| 0 <= j < unplaced@.len() implies #[trigger] unplaced@[j] < eff@.len() by {
                if j < before.len() {
                    assert(unplaced@[j] == before[j]);
                } else {
                    assert(unplaced@[j] == more@[j - before.len()]);
                }
            }
        }
    }
    proof {
        assert(fv.take(fv.len() as int) =~= fv);
    }
    let mut out = String::new();
    if unplaced.len() > 0 {
        push_str(
            &mut out,
            ">#--- 現在の差分に配置できなかった既存コメントです。>!reanchor <id> で位置を指定できます ---\n",
        );
        push_blocks(&mut out, threads, &unplaced);
    }
    let ghost first = out@;
    let global = positions_of(&eff, None, false);
    push_blocks(&mut out, threads, &global);
    proof {
        assert(unplaced@.len() == 0 ==> first =~= Seq::<char>::empty());
        assert(out@ =~= render_prelude(threads@, pv));
    }
    let ghost init = RenderState {
        out: out@,
        file: None,
        has_hunks: false,
        old_no: 0,
        new_no: 0,
        seen: Seq::empty(),
        drawn: Seq::empty(),
    };
    let mut m = RenderMachine {
        out,
        file: None,
        has_hunks: false,
        old_no: 0,
        new_no: 0,
        seen: Vec::new(),
        drawn: Vec::new(),
    };
    proof {
        assert(m@ =~= init);
    }
    let lines = split_lines(chars_of(text).as_slice());
    let ghost ls = lines_of(text@);
    for i in 0..lines.len()
        invariant
            pv == placements_view(eff@),
            threads@.len() == eff@.len(),
            ls == lines_of(text@),
            lines@.len() == ls.len(),
            forall|k: int| 0 <= k < lines@.len() ==> #[trigger] lines@[k]@ == ls[k],
            m@ == render_run(threads@, pv, init, ls.take(i as int)),
    {
        proof {
            assert(ls.take(i + 1).drop_last() =~= ls.take(i as int));
            assert(ls.take(i + 1).last() == lines@[i as int]@);
        }
        m.step(threads, &eff, lines[i].as_slice());
    }
    proof {
        assert(ls.take(ls.len() as int) =~= ls);
    }
    m.out
}

/// `p` is where `resolve_placement` may put a thread with this anchor.
pub open spec fn placed_as(anchor: Anchor, diff: Seq<FileDiff>, view: crate::anchor::ViewVersions, blobs: crate::digest::Blobs, p: Placement) -> bool {
    &&& anchor is Global ==> p@ == PlacementV::Global
    &&& anchor is File ==> p@ == PlacementV::File(crate::anchor::file_label_of(anchor))
    &&& anchor is Span ==> crate::anchor::span_placed(anchor, diff, view.files@, view.tree@, blobs, p@)
}

/// The buffer the one commenting edits: the diff with context added around whatever
/// threads are about that it does not show (and files it does not touch),
/// each thread written where it is placed, the threads that cannot be
/// placed listed first. Also the digests of the files added only for
/// context, for a comment written in one.
pub fn render_for_edit(
    diff_text: &str,
    diff: &UnifiedDiff,
    view: &crate::anchor::ViewVersions,
    blobs: &crate::digest::Blobs,
    threads: &Vec<Thread>,
    extra: &Vec<Want>,
) -> (r: (String, Vec<crate::model::FileDigest>))
    requires
        forall|i: int| 0 <= i < threads@.len() ==> crate::anchor::anchor_fits(#[trigger] threads@[i].anchor)
            && crate::anchor::ranges_start_at_one(threads@[i].anchor, *blobs),
    ensures
        exists|ps: Seq<Placement>, shown: Seq<FileDiffV>, text: Seq<char>|
            {
                &&& ps.len() == threads@.len()
                &&& forall|i: int| 0 <= i < ps.len() ==> placed_as(threads@[i].anchor, diff.files@, *view, *blobs, #[trigger] ps[i])
                &&& ((shown == diff@ && text == diff_text@) || (to_text_spec(diff_text@, diff@, shown) == Some(text)
                    && shown.len() >= diff@.len() && forall|i: int| 0 <= i < diff@.len() ==> keeps(diff@[i], #[trigger] shown[i])))
                &&& r.0@ == render_spec(text, threads@, effective_all(ps, shown))
            },
        forall|j: int| 0 <= j < r.1@.len() ==> {
            let f = #[trigger] r.1@[j];
            &&& f.old_path is Some
            &&& opt_view(f.old_path) == opt_view(f.new_path)
            &&& opt_view(f.old) == opt_view(f.new)
            &&& opt_view(f.new) == crate::anchor::head_spec(view.files@, view.tree@, opt_view(f.new_path).unwrap())
            &&& f.new is Some
        },
{
    let mut placements: Vec<Placement> = Vec::new();
    for i in 0..threads.len()
        invariant
            forall|i: int| 0 <= i < threads@.len() ==> crate::anchor::anchor_fits(#[trigger] threads@[i].anchor)
                && crate::anchor::ranges_start_at_one(threads@[i].anchor, *blobs),
            placements@.len() == i,
            forall|k: int| 0 <= k < i ==> placed_as(threads@[k].anchor, diff.files@, *view, *blobs, #[trigger] placements@[k]),
    {
        let p = crate::anchor::resolve_placement(&threads[i].anchor, diff, view, blobs);
        placements.push(p);
    }
    let mut wants: Vec<Want> = Vec::new();
    for i in 0..placements.len() {
        match want_of(&placements[i]) {
            Some(w) => wants.push(w),
            None => {},
        }
    }
    for i in 0..extra.len() {
        wants.push(extra[i].clone());
    }
    let (expanded, synthetic) = crate::expand::expand(diff, &wants, view, blobs);
    let (text, shown, syn) = match crate::expand::to_text(diff_text, diff, &expanded) {
        Some(t) => (t, expanded, synthetic),
        None => (diff_text.to_owned(), crate::expand::copy_diff(diff), Vec::new()),
    };
    let mut files: Vec<crate::model::FileDigest> = Vec::new();
    for j in 0..syn.len()
        invariant
            forall|q: int| 0 <= q < files@.len() ==> {
                let f = #[trigger] files@[q];
                &&& f.old_path is Some
                &&& opt_view(f.old_path) == opt_view(f.new_path)
                &&& opt_view(f.old) == opt_view(f.new)
                &&& opt_view(f.new) == crate::anchor::head_spec(view.files@, view.tree@, opt_view(f.new_path).unwrap())
                &&& f.new is Some
            },
    {
        match view.head(syn[j].as_str()) {
            Some(d) => {
                files.push(
                    crate::model::FileDigest {
                        old_path: Some(copy_string(&syn[j])),
                        new_path: Some(copy_string(&syn[j])),
                        old: Some(d.to_owned()),
                        new: Some(d.to_owned()),
                    },
                );
            },
            None => {},
        }
    }
    let out = render_placed(text.as_str(), &shown, threads, &placements);
    proof {
        assert(placements@.len() == threads@.len());
    }
    (out, files)
}

} // verus!
