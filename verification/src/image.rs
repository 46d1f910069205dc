//! Images attached to comments: which may be, and how a comment names one.
//!
//! An image is kept in the bundle under the hex of its sha256 digest, and a
//! comment refers to it as `![alt](diffnote-image:<hex>)`. An SVG is taken
//! only if nothing in it could run or load something from elsewhere.

use crate::diff::{find_chars, find_seq, lemma_find_seq};
use crate::digest::{digest, digest_of, is_lower_hex, sha256_hex, utf8_text};
use crate::messages::{m, message, replace, replace_all};
use crate::text::{
    chars_of, has_prefix, slice_of, starts_with, starts_with_str, string_of, trim, trimmed,
};
use vstd::prelude::*;

verus! {

/// What a comment's link to an image starts with.
pub const SCHEME: &'static str = "diffnote-image:";

/// What a comment's link to a file that is not an image starts with.
pub const FILE_SCHEME: &'static str = "diffnote-file:";

/// The most the server takes in one request (all of it is held in memory).
pub const CEILING: usize = 104857600;

/// The id an image has: the hex of its sha256 digest.
pub fn id_of(bytes: &[u8]) -> (r: String)
    ensures
        r@ == sha256_hex(bytes@),
        is_id_spec(r@),
{
    let d = digest(bytes);
    let cs = chars_of(d.as_str());
    proof {
        reveal_strlit("sha256:");
    }
    let hex = slice_of(cs.as_slice(), 7, cs.len());
    assert(hex@ == sha256_hex(bytes@));
    string_of(hex.as_slice())
}

/// Whether `s` is an image id: 64 lower-case hex digits.
pub open spec fn is_id_spec(s: Seq<char>) -> bool {
    s.len() == 64 && forall|i: int| 0 <= i < 64 ==> is_lower_hex(#[trigger] s[i])
}

fn is_id_chars(s: &[char]) -> (r: bool)
    ensures
        r == is_id_spec(s@),
{
    if s.len() != 64 {
        return false;
    }
    for i in 0..64
        invariant
            s@.len() == 64,
            forall|j: int| 0 <= j < i ==> is_lower_hex(#[trigger] s@[j]),
    {
        let c = s[i];
        if !(('0' <= c && c <= '9') || ('a' <= c && c <= 'f')) {
            assert(!is_lower_hex(s@[i as int]));
            return false;
        }
    }
    true
}

/// Whether `s` is an image id (64 hex digits, lower case).
pub fn is_id(s: &str) -> (r: bool)
    ensures
        r == is_id_spec(s@),
{
    let cs = chars_of(s);
    is_id_chars(cs.as_slice())
}

/// The ids that follow `scheme` in `rest`, after the ones in `found`, each
/// once, in the order they first appear.
pub open spec fn ids_from(scheme: Seq<char>, rest: Seq<char>, found: Seq<Seq<char>>) -> Seq<Seq<char>>
    decreases rest.len(),
{
    if scheme.len() == 0 {
        found
    } else {
        match find_seq(rest, scheme) {
            None => found,
            Some(at) => {
                let after = rest.skip(at + scheme.len());
                let found2 = if after.len() >= 64 && is_id_spec(after.take(64)) && !found.contains(
                    after.take(64),
                ) {
                    found.push(after.take(64))
                } else {
                    found
                };
                if 0 <= at && at + scheme.len() <= rest.len() {
                    ids_from(scheme, after, found2)
                } else {
                    found2
                }
            },
        }
    }
}

/// Whether cutting the first 64 bytes off what follows each `scheme` in
/// `rest` stays on a character boundary (it always does where an id is).
pub open spec fn cuts_cleanly(scheme: Seq<char>, rest: Seq<char>) -> bool
    decreases rest.len(),
{
    if scheme.len() == 0 {
        true
    } else {
        match find_seq(rest, scheme) {
            None => true,
            Some(at) => {
                let after = rest.skip(at + scheme.len());
                let bytes = vstd::utf8::encode_utf8(after);
                &&& (bytes.len() < 64 || vstd::utf8::is_char_boundary(bytes, 64))
                &&& if 0 <= at && at + scheme.len() <= rest.len() {
                    cuts_cleanly(scheme, after)
                } else {
                    true
                }
            },
        }
    }
}

pub open spec fn strings_view(v: Seq<String>) -> Seq<Seq<char>> {
    v.map_values(|s: String| s@)
}

fn contains_string(v: &Vec<String>, s: &[char]) -> (r: bool)
    ensures
        r == strings_view(v@).contains(s@),
{
    for i in 0..v.len()
        invariant
            forall|j: int| 0 <= j < i ==> v@[j]@ != s@,
    {
        let c = chars_of(v[i].as_str());
        if crate::text::same_chars(c.as_slice(), s) {
            assert(strings_view(v@)[i as int] == s@);
            return true;
        }
    }
    assert(!strings_view(v@).contains(s@)) by {
        if strings_view(v@).contains(s@) {
            let j = choose|j: int| 0 <= j < strings_view(v@).len() && strings_view(v@)[j] == s@;
            assert(v@[j]@ == s@);
        }
    }
    false
}

fn ids_after(scheme: &str, text: &str) -> (r: Vec<String>)
    requires
        cuts_cleanly(scheme@, text@),
    ensures
        strings_view(r@) == ids_from(scheme@, text@, seq![]),
{
    let sc = chars_of(scheme);
    let mut rest = chars_of(text);
    let mut found: Vec<String> = Vec::new();
    if sc.len() == 0 {
        return found;
    }
    assert(strings_view(found@) =~= Seq::<Seq<char>>::empty());
    loop
        invariant
            sc@ == scheme@,
            sc@.len() > 0,
            ids_from(scheme@, text@, seq![]) == ids_from(scheme@, rest@, strings_view(found@)),
        decreases rest@.len(),
    {
        proof {
            lemma_find_seq(rest@, sc@);
        }
        let at = match find_chars(rest.as_slice(), sc.as_slice()) {
            None => {
                return found;
            },
            Some(at) => at,
        };
        let n = rest.len();
        assert(at + sc@.len() <= n);
        let after = slice_of(rest.as_slice(), at + sc.len(), n);
        assert(after@ == rest@.skip(at + sc@.len()));
        if after.len() >= 64 {
            let head = slice_of(after.as_slice(), 0, 64);
            assert(head@ == after@.take(64));
            if is_id_chars(head.as_slice()) && !contains_string(&found, head.as_slice()) {
                let id = string_of(head.as_slice());
                proof {
                    assert(strings_view(found@.push(id)) =~= strings_view(found@).push(head@));
                }
                found.push(id);
            }
        }
        rest = after;
    }
}

/// The ids of the images a text (a comment's body) refers to.
pub fn ids_in(text: &str) -> (r: Vec<String>)
    requires
        cuts_cleanly(SCHEME@, text@),
    ensures
        strings_view(r@) == ids_from(SCHEME@, text@, seq![]),
{
    ids_after(SCHEME, text)
}

/// The ids of the other attached files a text refers to.
pub fn file_ids_in(text: &str) -> (r: Vec<String>)
    requires
        cuts_cleanly(FILE_SCHEME@, text@),
    ensures
        strings_view(r@) == ids_from(FILE_SCHEME@, text@, seq![]),
{
    ids_after(FILE_SCHEME, text)
}

/// Unicode's control characters (category `Cc`, what `char::is_control`
/// tests).
pub open spec fn is_control(c: char) -> bool {
    (c as u32) <= 0x1f || (0x7f <= (c as u32) && (c as u32) <= 0x9f)
}

/// Characters a file name to save under may not have.
pub open spec fn unwanted(c: char) -> bool {
    is_control(c) || c == '"' || c == ':' || c == '*' || c == '?' || c == '<' || c == '>' || c == '|'
}

/// What follows the last `/` or `\` of `s`.
pub open spec fn base_name(s: Seq<char>) -> Seq<char>
    decreases s.len(),
{
    if s.len() == 0 {
        s
    } else if s.last() == '/' || s.last() == '\\' {
        seq![]
    } else {
        base_name(s.drop_last()).push(s.last())
    }
}

/// `s` without its unwanted characters.
pub open spec fn kept(s: Seq<char>) -> Seq<char>
    decreases s.len(),
{
    if s.len() == 0 {
        s
    } else if unwanted(s.last()) {
        kept(s.drop_last())
    } else {
        kept(s.drop_last()).push(s.last())
    }
}

/// `s` without the dots it starts with.
pub open spec fn without_leading_dots(s: Seq<char>) -> Seq<char>
    decreases s.len(),
{
    if s.len() > 0 && s[0] == '.' {
        without_leading_dots(s.drop_first())
    } else {
        s
    }
}

/// The name to save a file under (see [`file_name`]).
pub open spec fn file_name_spec(asked: Seq<char>) -> Seq<char> {
    let k = kept(base_name(asked));
    let clean = without_leading_dots(trim(k.take(if k.len() < 120 {
        k.len() as int
    } else {
        120
    })));
    if clean.len() == 0 {
        "file"@
    } else {
        clean
    }
}

/// A name to save an attached file under: what the page says it is called,
/// without anything that could make it a path or spoil a header.
/// Where the base name of `cs` starts.
fn base_start(cs: &[char]) -> (r: usize)
    ensures
        r <= cs@.len(),
        base_name(cs@) == cs@.skip(r as int),
{
    let mut start = cs.len();
    assert(cs@.take(start as int) == cs@);
    assert(cs@.skip(start as int) =~= Seq::<char>::empty());
    while start > 0 && cs[start - 1] != '/' && cs[start - 1] != '\\'
        invariant
            start <= cs@.len(),
            base_name(cs@) == base_name(cs@.take(start as int)) + cs@.skip(start as int),
        decreases start,
    {
        let ghost t = cs@.take(start as int);
        assert(t.drop_last() == cs@.take(start - 1));
        assert(cs@.skip(start - 1) == seq![t.last()] + cs@.skip(start as int));
        start -= 1;
    }
    proof {
        let t = cs@.take(start as int);
        if start > 0 {
            assert(base_name(t) == Seq::<char>::empty());
        } else {
            assert(t.len() == 0);
        }
    }
    start
}

/// The characters of `cs[start..]` that are not unwanted.
fn keep_wanted(cs: &[char], start: usize) -> (r: Vec<char>)
    requires
        start <= cs@.len(),
    ensures
        r@ == kept(cs@.skip(start as int)),
{
    let mut clean: Vec<char> = Vec::new();
    let mut i = start;
    while i < cs.len()
        invariant
            start <= i <= cs@.len(),
            clean@ == kept(cs@.subrange(start as int, i as int)),
        decreases cs.len() - i,
    {
        let c = cs[i];
        let ghost prev = cs@.subrange(start as int, i as int);
        assert(cs@.subrange(start as int, i + 1) == prev.push(c));
        assert(cs@.subrange(start as int, i + 1).drop_last() == prev);
        let cc = c as u32;
        let bad = cc <= 0x1f || (0x7f <= cc && cc <= 0x9f) || c == '"' || c == ':' || c == '*' || c
            == '?' || c == '<' || c == '>' || c == '|';
        if !bad {
            clean.push(c);
        }
        i += 1;
    }
    assert(cs@.subrange(start as int, cs@.len() as int) == cs@.skip(start as int));
    clean
}

/// `t` without the dots it starts with.
fn strip_dots(t: &[char]) -> (r: Vec<char>)
    ensures
        r@ == without_leading_dots(t@),
{
    let mut d: usize = 0;
    assert(t@.skip(0) == t@);
    while d < t.len() && t[d] == '.'
        invariant
            d <= t@.len(),
            without_leading_dots(t@) == without_leading_dots(t@.skip(d as int)),
        decreases t.len() - d,
    {
        assert(t@.skip(d as int).drop_first() == t@.skip(d + 1));
        d += 1;
    }
    let rest = slice_of(t, d, t.len());
    assert(rest@ == t@.skip(d as int));
    rest
}

/// A name to save an attached file under: what the page says it is called,
/// without anything that could make it a path or spoil a header.
pub fn file_name(asked: &str) -> (r: String)
    ensures
        r@ == file_name_spec(asked@),
{
    let cs = chars_of(asked);
    let start = base_start(cs.as_slice());
    let clean = keep_wanted(cs.as_slice(), start);
    let n = if clean.len() < 120 {
        clean.len()
    } else {
        120
    };
    let head = slice_of(clean.as_slice(), 0, n);
    assert(head@ == clean@.take(n as int));
    let t = trimmed(head.as_slice());
    let rest = strip_dots(t.as_slice());
    if rest.len() == 0 {
        "file".to_owned()
    } else {
        string_of(rest.as_slice())
    }
}

// ---- what an image is -------------------------------------------------------

/// `s` with ASCII capitals made small (`str::to_ascii_lowercase`).
pub open spec fn ascii_lower(s: Seq<char>) -> Seq<char> {
    s.map_values(|c: char| if 'A' <= c && c <= 'Z' {
        ((c as u32) + 32) as char
    } else {
        c
    })
}

/// `s` without the byte-order marks it starts with.
pub open spec fn without_bom(s: Seq<char>) -> Seq<char>
    decreases s.len(),
{
    if s.len() > 0 && s[0] == '\u{feff}' {
        without_bom(s.drop_first())
    } else {
        s
    }
}

/// Whether `p` occurs in `s`.
pub open spec fn contains_seq(s: Seq<char>, p: Seq<char>) -> bool {
    find_seq(s, p) is Some
}

/// Whether an ASCII letter.
pub open spec fn is_alpha(c: char) -> bool {
    ('a' <= c && c <= 'z') || ('A' <= c && c <= 'Z')
}

/// ASCII white space (`u8::is_ascii_whitespace`).
pub open spec fn is_ascii_ws(c: char) -> bool {
    c == ' ' || c == '\t' || c == '\n' || c == '\u{c}' || c == '\r'
}

/// The first index from `j` on whose character is not an ASCII letter.
pub open spec fn past_alpha(s: Seq<char>, j: int) -> int
    decreases s.len() - j,
{
    if 0 <= j < s.len() && is_alpha(s[j]) {
        past_alpha(s, j + 1)
    } else {
        j
    }
}

/// The first index from `j` on whose character is not ASCII white space.
pub open spec fn past_ascii_ws(s: Seq<char>, j: int) -> int
    decreases s.len() - j,
{
    if 0 <= j < s.len() && is_ascii_ws(s[j]) {
        past_ascii_ws(s, j + 1)
    } else {
        j
    }
}

/// Whether an event handler attribute (` onload=`, `"onclick =`) begins at
/// `i`.
pub open spec fn handler_at(s: Seq<char>, i: int) -> bool {
    let g = s[i - 1];
    &&& 1 <= i && i + 2 < s.len()
    &&& (g == ' ' || g == '\t' || g == '\n' || g == '\r' || g == '"' || g == '\'' || g == '/')
    &&& s[i] == 'o' && s[i + 1] == 'n' && is_alpha(s[i + 2])
    &&& {
        let j = past_ascii_ws(s, past_alpha(s, i + 2));
        j < s.len() && s[j] == '='
    }
}

pub open spec fn runs_list() -> Seq<Seq<char>> {
    seq![
        "<script"@,
        "<foreignobject"@,
        "<iframe"@,
        "<object"@,
        "<embed"@,
        "<!entity"@,
        "<!doctype"@,
        "javascript:"@,
        "vbscript:"@,
    ]
}

pub open spec fn external_list() -> Seq<Seq<char>> {
    seq!["http://"@, "https://"@, "=\"//"@, "='//"@, "(//"@, "data:text"@]
}

pub open spec fn svg_ns() -> Seq<char> {
    "http://www.w3.org/2000/svg"@
}

pub open spec fn xlink_ns() -> Seq<char> {
    "http://www.w3.org/1999/xlink"@
}

/// Why an SVG (its text in lower case) is refused, if it is: something in
/// it could run, or load something from elsewhere.
pub open spec fn svg_refusal(lower: Seq<char>) -> Option<Seq<char>> {
    if exists|k: int| 0 <= k < runs_list().len() && contains_seq(lower, #[trigger] runs_list()[k]) {
        Some(message("image.svg_runs"@).unwrap())
    } else if exists|k: int|
        0 <= k < external_list().len() && contains_seq(
            replace_all(replace_all(lower, svg_ns(), seq![]), xlink_ns(), seq![]),
            #[trigger] external_list()[k],
        ) {
        Some(message("image.svg_external_ref"@).unwrap())
    } else if exists|i: int| handler_at(lower, i) {
        Some(message("image.svg_runs"@).unwrap())
    } else {
        None
    }
}

fn contains_any(s: &[char], list: &Vec<Vec<char>>) -> (r: bool)
    ensures
        r == exists|k: int| 0 <= k < list@.len() && contains_seq(s@, #[trigger] list@[k]@),
{
    for k in 0..list.len()
        invariant
            forall|j: int| 0 <= j < k ==> !contains_seq(s@, #[trigger] list@[j]@),
    {
        if find_chars(s, list[k].as_slice()).is_some() {
            return true;
        }
    }
    false
}

fn chars_list(v: &[&str]) -> (r: Vec<Vec<char>>)
    ensures
        r@.len() == v@.len(),
        forall|k: int| 0 <= k < v@.len() ==> #[trigger] r@[k]@ == v@[k]@,
{
    let mut out: Vec<Vec<char>> = Vec::new();
    for k in 0..v.len()
        invariant
            out@.len() == k,
            forall|j: int| 0 <= j < k ==> #[trigger] out@[j]@ == v@[j]@,
    {
        out.push(chars_of(v[k]));
    }
    out
}

/// Whether `s` has an event handler attribute anywhere.
fn has_handler(s: &[char]) -> (r: bool)
    ensures
        r == exists|i: int| handler_at(s@, i),
{
    let n = s.len();
    let mut i: usize = 1;
    while i < n && n - i > 2
        invariant
            n == s@.len(),
            1 <= i,
            forall|x: int| 1 <= x < i ==> !handler_at(s@, x),
        decreases n - i,
    {
        let g = s[i - 1];
        let after_gap = g == ' ' || g == '\t' || g == '\n' || g == '\r' || g == '"' || g == '\''
            || g == '/';
        let c2 = s[i + 2];
        if after_gap && s[i] == 'o' && s[i + 1] == 'n' && (('a' <= c2 && c2 <= 'z') || ('A' <= c2
            && c2 <= 'Z')) {
            let mut j = i + 2;
            while j < n && (('a' <= s[j] && s[j] <= 'z') || ('A' <= s[j] && s[j] <= 'Z'))
                invariant
                    n == s@.len(),
                    i + 2 <= j <= n,
                    past_alpha(s@, i + 2) == past_alpha(s@, j as int),
                decreases n - j,
            {
                j += 1;
            }
            let ghost pa = j as int;
            while j < n && (s[j] == ' ' || s[j] == '\t' || s[j] == '\n' || s[j] == '\u{c}' || s[j]
                == '\r')
                invariant
                    n == s@.len(),
                    pa <= j <= n,
                    past_ascii_ws(s@, pa) == past_ascii_ws(s@, j as int),
                decreases n - j,
            {
                j += 1;
            }
            if j < n && s[j] == '=' {
                assert(handler_at(s@, i as int));
                return true;
            }
            assert(!handler_at(s@, i as int));
        }
        i += 1;
    }
    assert forall|x: int| handler_at(s@, x) implies false by {
        assert(1 <= x && x + 2 < n);
    }
    false
}

/// Whether an SVG is refused (see [`svg_refusal`]), and why.
fn safe_svg(lower: &[char]) -> (r: Result<(), String>)
    requires
        message("image.svg_runs"@) is Some,
        message("image.svg_external_ref"@) is Some,
    ensures
        match r {
            Ok(()) => svg_refusal(lower@) is None,
            Err(e) => svg_refusal(lower@) == Some(e@),
        },
{
    let runs = chars_list(
        &[
            "<script",
            "<foreignobject",
            "<iframe",
            "<object",
            "<embed",
            "<!entity",
            "<!doctype",
            "javascript:",
            "vbscript:",
        ],
    );
    assert forall|k: int| 0 <= k < 9 implies #[trigger] runs@[k]@ == runs_list()[k] by {}
    if contains_any(lower, &runs) {
        proof {
            let k = choose|k: int| 0 <= k < runs@.len() && contains_seq(lower@, #[trigger] runs@[k]@);
            assert(contains_seq(lower@, runs_list()[k]));
        }
        return Err(m("image.svg_runs"));
    }
    assert(!exists|k: int| 0 <= k < runs_list().len() && contains_seq(lower@, #[trigger] runs_list()[k])) by {
        if exists|k: int| 0 <= k < runs_list().len() && contains_seq(lower@, #[trigger] runs_list()[k]) {
            let k = choose|k: int| 0 <= k < runs_list().len() && contains_seq(lower@, #[trigger] runs_list()[k]);
            assert(contains_seq(lower@, runs@[k]@));
        }
    }
    let ns1 = chars_of("http://www.w3.org/2000/svg");
    let ns2 = chars_of("http://www.w3.org/1999/xlink");
    proof {
        reveal_strlit("http://www.w3.org/2000/svg");
        reveal_strlit("http://www.w3.org/1999/xlink");
    }
    let empty: Vec<char> = Vec::new();
    let w1 = replace(lower, ns1.as_slice(), empty.as_slice());
    let w2 = replace(w1.as_slice(), ns2.as_slice(), empty.as_slice());
    assert(empty@ =~= Seq::<char>::empty());
    let ext = chars_list(&["http://", "https://", "=\"//", "='//", "(//", "data:text"]);
    assert forall|k: int| 0 <= k < 6 implies #[trigger] ext@[k]@ == external_list()[k] by {}
    if contains_any(w2.as_slice(), &ext) {
        proof {
            let k = choose|k: int| 0 <= k < ext@.len() && contains_seq(w2@, #[trigger] ext@[k]@);
            assert(contains_seq(w2@, external_list()[k]));
        }
        return Err(m("image.svg_external_ref"));
    }
    assert(!exists|k: int|
        0 <= k < external_list().len() && contains_seq(w2@, #[trigger] external_list()[k])) by {
        if exists|k: int| 0 <= k < external_list().len() && contains_seq(w2@, #[trigger] external_list()[k]) {
            let k = choose|k: int| 0 <= k < external_list().len() && contains_seq(w2@, #[trigger] external_list()[k]);
            assert(contains_seq(w2@, ext@[k]@));
        }
    }
    if has_handler(lower) {
        return Err(m("image.svg_runs"));
    }
    Ok(())
}

/// Whether `bytes` start with `p`.
pub open spec fn bytes_start(bytes: Seq<u8>, p: Seq<u8>) -> bool {
    p.len() <= bytes.len() && bytes.take(p.len() as int) == p
}

fn starts_bytes(bytes: &[u8], p: &[u8]) -> (r: bool)
    ensures
        r == bytes_start(bytes@, p@),
{
    if p.len() > bytes.len() {
        return false;
    }
    for i in 0..p.len()
        invariant
            p@.len() <= bytes@.len(),
            forall|j: int| 0 <= j < i ==> bytes@[j] == p@[j],
    {
        if bytes[i] != p[i] {
            assert(bytes@.take(p@.len() as int)[i as int] != p@[i as int]);
            return false;
        }
    }
    assert(bytes@.take(p@.len() as int) =~= p@);
    true
}

pub open spec fn png_sig() -> Seq<u8> {
    seq![0x89u8, 0x50u8, 0x4eu8, 0x47u8, 0x0du8, 0x0au8, 0x1au8, 0x0au8]
}

/// The media type of an image that may be attached, or why it may not.
pub open spec fn kind_spec(bytes: Seq<u8>) -> Result<Seq<char>, Seq<char>> {
    if bytes.len() == 0 {
        Err(message("image.empty"@).unwrap())
    } else if bytes_start(bytes, png_sig()) {
        Ok("image/png"@)
    } else if bytes_start(bytes, seq![0xffu8, 0xd8u8, 0xffu8]) {
        Ok("image/jpeg"@)
    } else if bytes_start(bytes, seq![0x47u8, 0x49u8, 0x46u8, 0x38u8, 0x37u8, 0x61u8])
        || bytes_start(bytes, seq![0x47u8, 0x49u8, 0x46u8, 0x38u8, 0x39u8, 0x61u8]) {
        Ok("image/gif"@)
    } else if bytes.len() > 12 && bytes.take(4) == seq![0x52u8, 0x49u8, 0x46u8, 0x46u8]
        && bytes.subrange(8, 12) == seq![0x57u8, 0x45u8, 0x42u8, 0x50u8] {
        Ok("image/webp"@)
    } else if vstd::utf8::valid_utf8(bytes) && contains_seq(
        ascii_lower(without_bom(vstd::utf8::decode_utf8(bytes))),
        "<svg"@,
    ) {
        match svg_refusal(ascii_lower(without_bom(vstd::utf8::decode_utf8(bytes)))) {
            None => Ok("image/svg+xml"@),
            Some(e) => Err(e),
        }
    } else {
        Err(message("image.unsupported_format"@).unwrap())
    }
}

/// The media type of an image that may be attached (PNG, JPEG, GIF, WebP, or
/// an SVG with nothing in it that runs or loads), read from its bytes; or why
/// it may not.
pub fn kind(bytes: &[u8]) -> (r: Result<&'static str, String>)
    ensures
        match r {
            Ok(t) => kind_spec(bytes@) == Ok::<Seq<char>, Seq<char>>(t@),
            Err(e) => kind_spec(bytes@) == Err::<Seq<char>, Seq<char>>(e@),
        },
{
    proof {
        reveal_strlit("image.empty");
        reveal_strlit("image.svg_runs");
        reveal_strlit("image.svg_external_ref");
        reveal_strlit("image.unsupported_format");
    }
    if bytes.len() == 0 {
        return Err(m("image.empty"));
    }
    let png: [u8; 8] = [0x89, 0x50, 0x4e, 0x47, 0x0d, 0x0a, 0x1a, 0x0a];
    assert(png@ == png_sig());
    if starts_bytes(bytes, &png) {
        return Ok("image/png");
    }
    let jpeg: [u8; 3] = [0xff, 0xd8, 0xff];
    assert(jpeg@ == seq![0xffu8, 0xd8u8, 0xffu8]);
    if starts_bytes(bytes, &jpeg) {
        return Ok("image/jpeg");
    }
    let gif7: [u8; 6] = [0x47, 0x49, 0x46, 0x38, 0x37, 0x61];
    let gif9: [u8; 6] = [0x47, 0x49, 0x46, 0x38, 0x39, 0x61];
    assert(gif7@ == seq![0x47u8, 0x49u8, 0x46u8, 0x38u8, 0x37u8, 0x61u8]);
    assert(gif9@ == seq![0x47u8, 0x49u8, 0x46u8, 0x38u8, 0x39u8, 0x61u8]);
    if starts_bytes(bytes, &gif7) || starts_bytes(bytes, &gif9) {
        return Ok("image/gif");
    }
    if bytes.len() > 12 && bytes[0] == 0x52 && bytes[1] == 0x49 && bytes[2] == 0x46 && bytes[3]
        == 0x46 && bytes[8] == 0x57 && bytes[9] == 0x45 && bytes[10] == 0x42 && bytes[11] == 0x50 {
        assert(bytes@.take(4) =~= seq![0x52u8, 0x49u8, 0x46u8, 0x46u8]);
        assert(bytes@.subrange(8, 12) =~= seq![0x57u8, 0x45u8, 0x42u8, 0x50u8]);
        return Ok("image/webp");
    }
    assert(!(bytes@.len() > 12 && bytes@.take(4) == seq![0x52u8, 0x49u8, 0x46u8, 0x46u8]
        && bytes@.subrange(8, 12) == seq![0x57u8, 0x45u8, 0x42u8, 0x50u8])) by {
        if bytes@.len() > 12 && bytes@.take(4) == seq![0x52u8, 0x49u8, 0x46u8, 0x46u8]
            && bytes@.subrange(8, 12) == seq![0x57u8, 0x45u8, 0x42u8, 0x50u8] {
            assert(bytes@.take(4)[0] == bytes@[0]);
            assert(bytes@.take(4)[1] == bytes@[1]);
            assert(bytes@.take(4)[2] == bytes@[2]);
            assert(bytes@.take(4)[3] == bytes@[3]);
            assert(bytes@.subrange(8, 12)[0] == bytes@[8]);
            assert(bytes@.subrange(8, 12)[1] == bytes@[9]);
            assert(bytes@.subrange(8, 12)[2] == bytes@[10]);
            assert(bytes@.subrange(8, 12)[3] == bytes@[11]);
        }
    }
    if let Some(text) = utf8_text(bytes) {
        let cs = chars_of(text);
        let mut b: usize = 0;
        assert(cs@.skip(0) == cs@);
        while b < cs.len() && cs[b] == '\u{feff}'
            invariant
                b <= cs@.len(),
                without_bom(cs@) == without_bom(cs@.skip(b as int)),
            decreases cs.len() - b,
        {
            assert(cs@.skip(b as int).drop_first() == cs@.skip(b + 1));
            b += 1;
        }
        let mut lower: Vec<char> = Vec::new();
        let ghost src = cs@.skip(b as int);
        let mut i = b;
        while i < cs.len()
            invariant
                b <= i <= cs@.len(),
                src == cs@.skip(b as int),
                lower@ == ascii_lower(cs@.subrange(b as int, i as int)),
            decreases cs.len() - i,
        {
            let c = cs[i];
            let l = if 'A' <= c && c <= 'Z' {
                ((c as u32) + 32) as u8 as char
            } else {
                c
            };
            assert(l == if 'A' <= c && c <= 'Z' {
                ((c as u32) + 32) as char
            } else {
                c
            }) by {
                if 'A' <= c && c <= 'Z' {
                    assert(((c as u32) + 32) as u8 as char == ((c as u32) + 32) as char);
                }
            }
            lower.push(l);
            assert(cs@.subrange(b as int, i + 1) == cs@.subrange(b as int, i as int).push(c));
            assert(ascii_lower(cs@.subrange(b as int, i + 1)) =~= ascii_lower(
                cs@.subrange(b as int, i as int),
            ).push(l));
            i += 1;
        }
        assert(cs@.subrange(b as int, cs@.len() as int) == src);
        let svg = chars_of("<svg");
        if find_chars(lower.as_slice(), svg.as_slice()).is_some() {
            return match safe_svg(lower.as_slice()) {
                Ok(()) => Ok("image/svg+xml"),
                Err(e) => Err(e),
            };
        }
    }
    Err(m("image.unsupported_format"))
}

/// The standard base64 encoding of `bytes` (with padding).
pub uninterp spec fn base64_standard(bytes: Seq<u8>) -> Seq<char>;

/// `base64::engine::general_purpose::STANDARD.encode`: the standard base64
/// text of `bytes`.
#[verifier::external_body]
fn base64_of(bytes: &[u8]) -> (r: String)
    ensures
        r@ == base64_standard(bytes@),
{
    base64::Engine::encode(&base64::engine::general_purpose::STANDARD, bytes)
}

/// The image as a `data:` address, for a page that has no server to ask.
pub fn data_uri(mime: &str, bytes: &[u8]) -> (r: String)
    ensures
        r@ == "data:"@ + mime@ + ";base64,"@ + base64_standard(bytes@),
{
    let mut out = "data:".to_owned();
    crate::text::push_str(&mut out, mime);
    crate::text::push_str(&mut out, ";base64,");
    let enc = base64_of(bytes);
    crate::text::push_str(&mut out, enc.as_str());
    out
}

} // verus!
