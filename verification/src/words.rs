//! Which words of a removed line and of the added line that replaces it are
//! what changed, to be emphasized.
//!
//! A line is cut into words (letters, digits and `_`), runs of white space and
//! single other characters; the two lists are compared, and the parts that are
//! not in both are the changes. Offsets are in UTF-16 code units, which is how
//! the page counts.

use vstd::prelude::*;
use crate::text::{
    chars_of, is_ws, is_whitespace, lines_seq, lemma_lines_seq_push, slice_of, trim, trim_end,
    trim_end_at, trim_start, trim_start_at, trimmed,
};
use crate::linediff::{
    DiffOp, lemma_totals_prefix, myers, myers_of, new_len, new_total, old_len, old_total, valid_script,
};
use vstd::utf8::{encode_utf8, encode_scalar};

verus! {

/// Unicode's `Alphabetic` or `Numeric` property (what
/// `char::is_alphanumeric` tests).
pub uninterp spec fn alphanumeric(c: char) -> bool;

/// `char::is_alphanumeric`.
#[verifier::external_body]
fn is_alphanumeric(c: char) -> (r: bool)
    ensures
        r == alphanumeric(c),
{
    c.is_alphanumeric()
}

/// What a character is part of.
#[derive(PartialEq, Eq, Structural, Clone, Copy, Debug)]
pub enum Class {
    Word,
    Space,
    Other,
}

pub open spec fn class(c: char) -> Class {
    if alphanumeric(c) || c == '_' {
        Class::Word
    } else if is_ws(c) {
        Class::Space
    } else {
        Class::Other
    }
}

pub fn class_of(c: char) -> (r: Class)
    ensures
        r == class(c),
{
    if is_alphanumeric(c) || c == '_' {
        Class::Word
    } else if is_whitespace(c) {
        Class::Space
    } else {
        Class::Other
    }
}

/// Whether `s[i]` belongs to the same word as `s[i - 1]`: both are letters or
/// both white space (another character stands alone).
pub open spec fn joins(s: Seq<char>, i: int) -> bool {
    0 < i < s.len() && class(s[i]) == class(s[i - 1]) && class(s[i]) != Class::Other
}

/// The words of `s` as `[start, end)` character ranges, in order.
pub open spec fn tokens(s: Seq<char>) -> Seq<(int, int)>
    decreases s.len(),
{
    if s.len() == 0 {
        seq![]
    } else {
        let t = tokens(s.drop_last());
        let i = s.len() - 1;
        if joins(s, i) {
            t.update(t.len() - 1, (t.last().0, s.len() as int))
        } else {
            t.push((i, s.len() as int))
        }
    }
}

/// Ranges that lie in `[0, n)`, each non-empty, in order and apart.
pub open spec fn ordered(t: Seq<(int, int)>, n: int) -> bool {
    &&& forall|k: int| #![trigger t[k]] 0 <= k < t.len() ==> 0 <= t[k].0 < t[k].1 <= n
    &&& forall|j: int, k: int| 0 <= j < k < t.len() ==> #[trigger] t[j].1 <= #[trigger] t[k].0
}

/// The words of a text tile it: they are in order, and the first starts at its
/// start and the last ends at its end.
pub proof fn lemma_tokens_tile(s: Seq<char>)
    ensures
        ordered(tokens(s), s.len() as int),
        s.len() == 0 <==> tokens(s).len() == 0,
        tokens(s).len() > 0 ==> tokens(s)[0].0 == 0 && tokens(s).last().1 == s.len(),
    decreases s.len(),
{
    if s.len() > 0 {
        let p = s.drop_last();
        lemma_tokens_tile(p);
        let t = tokens(p);
        let i = s.len() - 1;
        if joins(s, i) {
            assert(t.len() > 0);
            let u = t.update(t.len() - 1, (t.last().0, s.len() as int));
            assert forall|j: int, k: int| 0 <= j < k < u.len() implies #[trigger] u[j].1 <= #[trigger] u[k].0 by {
                assert(t[j].1 <= t[k].0);
            }
        } else {
            let u = t.push((i, s.len() as int));
            assert forall|j: int, k: int| 0 <= j < k < u.len() implies #[trigger] u[j].1 <= #[trigger] u[k].0 by {
                if k == u.len() - 1 && j < t.len() - 1 {
                    assert(t[j].1 <= t[t.len() - 1].0);
                }
            }
        }
    }
}

/// The views of a list of index pairs.
pub open spec fn spans(v: Seq<(usize, usize)>) -> Seq<(int, int)> {
    v.map_values(|p: (usize, usize)| (p.0 as int, p.1 as int))
}

/// The words of `s`.
pub fn words(s: &[char]) -> (r: Vec<(usize, usize)>)
    ensures
        spans(r@) == tokens(s@),
{
    let mut out: Vec<(usize, usize)> = Vec::new();
    let mut i: usize = 0;
    while i < s.len()
        invariant
            i <= s@.len(),
            spans(out@) == tokens(s@.take(i as int)),
        decreases s.len() - i,
    {
        let ghost t = s@.take(i + 1);
        assert(t.drop_last() == s@.take(i as int));
        proof {
            lemma_tokens_tile(s@.take(i as int));
        }
        if i > 0 && class_of(s[i]) == class_of(s[i - 1]) && class_of(s[i]) != Class::Other {
            assert(joins(t, i as int));
            let last = out.len() - 1;
            let start = out[last].0;
            out.set(last, (start, i + 1));
            assert(spans(out@) =~= tokens(t));
        } else {
            assert(!joins(t, i as int));
            out.push((i, i + 1));
            assert(spans(out@) =~= tokens(t));
        }
        i += 1;
    }
    assert(s@.take(s@.len() as int) == s@);
    out
}

/// How many bytes `s` takes in UTF-8 (`str::len` of its text).
pub open spec fn byte_len(s: Seq<char>) -> int {
    encode_utf8(s).len() as int
}

/// How many bytes `c` takes in UTF-8 (`char::len_utf8`).
pub open spec fn width8(c: char) -> int {
    let v = c as u32;
    if v <= 0x7f {
        1
    } else if v <= 0x7ff {
        2
    } else if v <= 0xffff {
        3
    } else {
        4
    }
}

proof fn lemma_encode_push(s: Seq<char>, c: char)
    ensures
        encode_utf8(s.push(c)) == encode_utf8(s) + encode_scalar(c as u32),
    decreases s.len(),
{
    if s.len() == 0 {
        assert(s.push(c).drop_first() =~= Seq::<char>::empty());
        assert(s.push(c)[0] == c);
        assert(encode_utf8(s) =~= Seq::<u8>::empty());
        assert(encode_utf8(s.push(c).drop_first()) =~= Seq::<u8>::empty());
        assert(encode_utf8(s.push(c)) =~= encode_utf8(s) + encode_scalar(c as u32));
    } else {
        lemma_encode_push(s.drop_first(), c);
        assert(s.push(c).drop_first() =~= s.drop_first().push(c));
        assert(s.push(c)[0] == s[0]);
        let a = encode_scalar(s[0] as u32);
        let b = encode_utf8(s.drop_first());
        let e = encode_scalar(c as u32);
        assert(encode_utf8(s.push(c)) == a + encode_utf8(s.drop_first().push(c)));
        assert(encode_utf8(s) == a + b);
        assert(a + (b + e) =~= (a + b) + e);
    }
}

/// One more character adds its width.
pub proof fn lemma_byte_len_push(s: Seq<char>, c: char)
    ensures
        byte_len(s.push(c)) == byte_len(s) + width8(c),
{
    lemma_encode_push(s, c);
    vstd::utf8::char_is_scalar(c);
}

/// A character takes one to four bytes.
pub proof fn lemma_byte_len_bounds(s: Seq<char>)
    ensures
        s.len() <= byte_len(s) <= 4 * s.len(),
    decreases s.len(),
{
    if s.len() > 0 {
        lemma_byte_len_bounds(s.drop_last());
        lemma_byte_len_push(s.drop_last(), s.last());
        assert(s.drop_last().push(s.last()) == s);
    }
}

fn width8_of(c: char) -> (r: usize)
    ensures
        r == width8(c),
{
    let v = c as u32;
    if v <= 0x7f {
        1
    } else if v <= 0x7ff {
        2
    } else if v <= 0xffff {
        3
    } else {
        4
    }
}

/// The UTF-8 length of `s`.
fn byte_width(s: &[char]) -> (r: usize)
    requires
        4 * s@.len() <= usize::MAX,
    ensures
        r == byte_len(s@),
        r <= 4 * s@.len(),
{
    let mut n: usize = 0;
    let mut i: usize = 0;
    assert(s@.take(0) =~= Seq::<char>::empty());
    while i < s.len()
        invariant
            i <= s@.len(),
            4 * s@.len() <= usize::MAX,
            n == byte_len(s@.take(i as int)),
            n <= 4 * i,
        decreases s.len() - i,
    {
        proof {
            lemma_byte_len_push(s@.take(i as int), s@[i as int]);
            assert(s@.take(i + 1) == s@.take(i as int).push(s@[i as int]));
        }
        n = n + width8_of(s[i]);
        i += 1;
    }
    assert(s@.take(s@.len() as int) == s@);
    n
}

/// How many UTF-16 code units `c` takes (`char::len_utf16`).
pub open spec fn width16(c: char) -> int {
    if (c as u32) <= 0xffff {
        1
    } else {
        2
    }
}

/// How many UTF-16 code units `s` takes.
pub open spec fn utf16_len(s: Seq<char>) -> int
    decreases s.len(),
{
    if s.len() == 0 {
        0
    } else {
        utf16_len(s.drop_last()) + width16(s.last())
    }
}

/// `pre[k]` is how many UTF-16 code units the first `k` characters of `s`
/// take.
fn utf16_prefixes(s: &[char]) -> (pre: Vec<u32>)
    requires
        s@.len() <= 0x1000_0000,
    ensures
        pre@.len() == s@.len() + 1,
        forall|k: int| 0 <= k <= s@.len() ==> pre@[k] == utf16_len(#[trigger] s@.take(k)),
{
    let mut pre: Vec<u32> = Vec::new();
    pre.push(0);
    assert(s@.take(0) =~= Seq::<char>::empty());
    let mut i: usize = 0;
    while i < s.len()
        invariant
            i <= s@.len() <= 0x1000_0000,
            pre@.len() == i + 1,
            forall|k: int| 0 <= k <= i ==> pre@[k] == utf16_len(#[trigger] s@.take(k)),
            forall|k: int| 0 <= k <= i ==> pre@[k] <= 2 * k,
        decreases s.len() - i,
    {
        let w: u32 = if (s[i] as u32) <= 0xffff { 1 } else { 2 };
        assert(s@.take(i + 1).drop_last() == s@.take(i as int));
        let next = pre[i] + w;
        pre.push(next);
        i += 1;
    }
    pre
}

/// The texts of the ranges `t` of `s`.
pub open spec fn texts(s: Seq<char>, t: Seq<(int, int)>) -> Seq<Seq<char>> {
    t.map_values(|r: (int, int)| s.subrange(r.0, r.1))
}

fn token_texts(s: &[char], t: &[(usize, usize)]) -> (r: Vec<Vec<char>>)
    requires
        ordered(spans(t@), s@.len() as int),
    ensures
        lines_seq(r@) == texts(s@, spans(t@)),
{
    let mut out: Vec<Vec<char>> = Vec::new();
    let mut k: usize = 0;
    while k < t.len()
        invariant
            k <= t@.len(),
            ordered(spans(t@), s@.len() as int),
            lines_seq(out@) == texts(s@, spans(t@.take(k as int))),
        decreases t.len() - k,
    {
        assert(spans(t@)[k as int] == (t@[k as int].0 as int, t@[k as int].1 as int));
        let piece = slice_of(s, t[k].0, t[k].1);
        let ghost before = out@;
        out.push(piece);
        proof {
            lemma_lines_seq_push(before, piece);
            assert(t@.take(k + 1) == t@.take(k as int).push(t@[k as int]));
            assert(texts(s@, spans(t@.take(k + 1))) =~= texts(s@, spans(t@.take(k as int))).push(piece@));
        }
        k += 1;
    }
    assert(t@.take(t@.len() as int) == t@);
    out
}

/// Lines longer than this many bytes (a minified file) are not compared.
pub const MAX_LINE: usize = 2000;

/// A text has at most as many words as characters.
pub proof fn lemma_tokens_len(s: Seq<char>)
    ensures
        tokens(s).len() <= s.len(),
    decreases s.len(),
{
    if s.len() > 0 {
        lemma_tokens_len(s.drop_last());
        lemma_tokens_tile(s.drop_last());
    }
}

proof fn lemma_trim_start_len(s: Seq<char>)
    ensures
        trim_start(s).len() <= s.len(),
    decreases s.len(),
{
    if s.len() > 0 {
        lemma_trim_start_len(s.drop_first());
    }
}

proof fn lemma_trim_end_len(s: Seq<char>)
    ensures
        trim_end(s).len() <= s.len(),
    decreases s.len(),
{
    if s.len() > 0 {
        lemma_trim_end_len(s.drop_last());
    }
}

/// Trimming keeps a part of the text.
pub proof fn lemma_trim_len(s: Seq<char>)
    ensures
        trim(s).len() <= s.len(),
{
    lemma_trim_start_len(s);
    lemma_trim_end_len(trim_start(s));
}

/// How many words of one side the step covers (`old` picks the side).
pub open spec fn side_len(op: DiffOp, old: bool) -> int {
    if old {
        old_len(op)
    } else {
        new_len(op)
    }
}

/// How many words of one side the steps cover.
pub open spec fn side_total(ops: Seq<DiffOp>, old: bool) -> int {
    if old {
        old_total(ops)
    } else {
        new_total(ops)
    }
}

/// On one side, the span of the words of each step that is not an equal run
/// and covers any there, in order.
pub open spec fn changed_spans(ops: Seq<DiffOp>, t: Seq<(int, int)>, old: bool) -> Seq<(int, int)>
    decreases ops.len(),
{
    if ops.len() == 0 {
        seq![]
    } else {
        let rest = changed_spans(ops.drop_last(), t, old);
        let op = ops.last();
        let p = side_total(ops.drop_last(), old);
        let n = side_len(op, old);
        if !(op is Equal) && n > 0 {
            rest.push((t[p].0, t[p + n - 1].1))
        } else {
            rest
        }
    }
}

/// Where the `p`th word starts (the text's end past the last word).
pub open spec fn start_at(t: Seq<(int, int)>, p: int, n: int) -> int {
    if 0 <= p < t.len() {
        t[p].0
    } else {
        n
    }
}

proof fn lemma_start_at_grows(t: Seq<(int, int)>, n: int, p: int, q: int)
    requires
        ordered(t, n),
        0 <= p <= q,
        p < t.len(),
    ensures
        t[p].0 < t[p].1 <= start_at(t, q, n) || p == q,
        t[p].0 <= start_at(t, q, n),
{
    assert(0 <= t[p].0 < t[p].1 <= n);
    if p < q && q < t.len() {
        assert(t[p].1 <= t[q].0);
    }
}

/// The changed spans of one side are in order, apart, and end before the
/// first word that the steps have not reached.
pub proof fn lemma_changed_spans(ops: Seq<DiffOp>, t: Seq<(int, int)>, n: int, old: bool)
    requires
        ordered(t, n),
        side_total(ops, old) <= t.len(),
    ensures
        ordered(changed_spans(ops, t, old), n),
        forall|k: int|
            0 <= k < changed_spans(ops, t, old).len() ==> #[trigger] changed_spans(ops, t, old)[k].1
                <= start_at(t, side_total(ops, old), n),
    decreases ops.len(),
{
    if ops.len() > 0 {
        let pre = ops.drop_last();
        let op = ops.last();
        crate::linediff::lemma_totals_nonneg(pre);
        assert(side_total(ops, old) == side_total(pre, old) + side_len(op, old));
        lemma_changed_spans(pre, t, n, old);
        let rest = changed_spans(pre, t, old);
        let p = side_total(pre, old);
        let m = side_len(op, old);
        let q = p + m;
        if !(op is Equal) && m > 0 {
            let last = p + m - 1;
            lemma_start_at_grows(t, n, p, last);
            lemma_start_at_grows(t, n, last, q);
            let u = rest.push((t[p].0, t[last].1));
            assert forall|j: int, k: int| 0 <= j < k < u.len() implies #[trigger] u[j].1 <= #[trigger] u[k].0 by {
                if k < rest.len() {
                    assert(rest[j].1 <= rest[k].0);
                } else {
                    assert(rest[j].1 <= start_at(t, p, n));
                }
            }
            assert forall|k: int| 0 <= k < u.len() implies #[trigger] u[k].1 <= start_at(t, q, n) by {
                if k < rest.len() {
                    assert(rest[k].1 <= start_at(t, p, n));
                }
            }
        } else {
            assert forall|k: int| 0 <= k < rest.len() implies #[trigger] rest[k].1 <= start_at(t, q, n) by {
                assert(rest[k].1 <= start_at(t, p, n));
                if p < t.len() {
                    lemma_start_at_grows(t, n, p, q);
                }
            }
        }
    }
}

/// The bytes of the words `a[from..to]`, white space at their ends left out.
pub open spec fn trimmed_width(a: Seq<Seq<char>>, from: int, to: int) -> int
    decreases to - from,
{
    if to <= from {
        0
    } else {
        trimmed_width(a, from, to - 1) + byte_len(trim(a[to - 1]))
    }
}

/// What the equal runs of `ops` keep of the old words `a`, in bytes of text.
pub open spec fn same_width(ops: Seq<DiffOp>, a: Seq<Seq<char>>) -> int
    decreases ops.len(),
{
    if ops.len() == 0 {
        0
    } else {
        let p = old_total(ops.drop_last());
        same_width(ops.drop_last(), a) + match ops.last() {
            DiffOp::Equal { len, .. } => trimmed_width(a, p, p + len),
            _ => 0,
        }
    }
}

/// Whether `s[from..to]` is all white space.
pub open spec fn blank(s: Seq<char>, from: int, to: int) -> bool {
    forall|k: int| from <= k < to ==> is_ws(#[trigger] s[k])
}

/// The spans `rs` with those that touch or have only white space between them
/// joined.
pub open spec fn merge(s: Seq<char>, rs: Seq<(int, int)>) -> Seq<(int, int)>
    decreases rs.len(),
{
    if rs.len() == 0 {
        seq![]
    } else {
        let out = merge(s, rs.drop_last());
        let r = rs.last();
        if out.len() > 0 && blank(s, out.last().1, r.0) {
            let end = if r.1 > out.last().1 {
                r.1
            } else {
                out.last().1
            };
            out.update(out.len() - 1, (out.last().0, end))
        } else {
            out.push(r)
        }
    }
}

/// Joining spans keeps them in order, and the last ends where the last
/// span did.
pub proof fn lemma_merge(s: Seq<char>, rs: Seq<(int, int)>, n: int)
    requires
        ordered(rs, n),
    ensures
        ordered(merge(s, rs), n),
        rs.len() > 0 ==> merge(s, rs).len() > 0 && merge(s, rs).last().1 == rs.last().1,
        merge(s, rs).len() <= rs.len(),
    decreases rs.len(),
{
    if rs.len() > 0 {
        let pre = rs.drop_last();
        lemma_merge(s, pre, n);
        let out = merge(s, pre);
        let r = rs.last();
        if out.len() > 0 {
            assert(out.last().1 == pre.last().1);
            assert(rs[rs.len() - 2].1 <= rs[rs.len() - 1].0);
            if blank(s, out.last().1, r.0) {
                let u = out.update(out.len() - 1, (out.last().0, r.1));
                assert forall|j: int, k: int| 0 <= j < k < u.len() implies #[trigger] u[j].1 <= #[trigger] u[k].0 by {
                    assert(out[j].1 <= out[k].0);
                }
            } else {
                let u = out.push(r);
                assert forall|j: int, k: int| 0 <= j < k < u.len() implies #[trigger] u[j].1 <= #[trigger] u[k].0 by {
                    if k == out.len() && j < out.len() - 1 {
                        assert(out[j].1 <= out[out.len() - 1].0);
                    }
                }
            }
        }
    }
}

/// Whether the spans are all of the text that is not white space at its ends
/// (or there are none and the text is white space).
pub open spec fn covers_all(s: Seq<char>, rs: Seq<(int, int)>) -> bool {
    if rs.len() == 0 {
        trim(s).len() == 0
    } else if rs.len() == 1 {
        rs[0].0 <= s.len() - trim_start(s).len() && rs[0].1 >= trim_end(s).len()
    } else {
        false
    }
}

/// The spans in UTF-16 code units.
pub open spec fn units(s: Seq<char>, rs: Seq<(int, int)>) -> Seq<(int, int)> {
    rs.map_values(|r: (int, int)| (utf16_len(s.take(r.0)), utf16_len(s.take(r.1))))
}

/// Whether two lines have enough in common for their changes to be worth
/// showing: the text their equal runs keep (`same` bytes) is at least 35% of
/// both lines' text (`total` bytes), that is `2 * same / total >= 7 / 20`.
pub open spec fn alike(same: int, total: int) -> bool {
    total > 0 && 40 * same >= 7 * total
}

/// The changed spans of the old and the new line, in UTF-16 code units, given
/// the edit script `ops` between their words; `None` where a line is too long,
/// the lines are too different, or the change is all of both.
pub open spec fn line_changes(old: Seq<char>, new: Seq<char>, ops: Seq<DiffOp>) -> Option<(Seq<(int, int)>, Seq<(int, int)>)> {
    let ta = tokens(old);
    let tb = tokens(new);
    let same = same_width(ops, texts(old, ta));
    let total = byte_len(trim(old)) + byte_len(trim(new));
    let om = merge(old, changed_spans(ops, ta, true));
    let nm = merge(new, changed_spans(ops, tb, false));
    if byte_len(old) > MAX_LINE || byte_len(new) > MAX_LINE {
        None
    } else if !alike(same, total) {
        None
    } else if covers_all(old, om) && covers_all(new, nm) {
        None
    } else {
        Some((units(old, om), units(new, nm)))
    }
}

/// The view of a list of `[start, end)` pairs.
pub open spec fn pair_view(v: Seq<[u32; 2]>) -> Seq<(int, int)> {
    v.map_values(|a: [u32; 2]| (a[0] as int, a[1] as int))
}

pub open spec fn changes_view(r: Option<(Vec<[u32; 2]>, Vec<[u32; 2]>)>) -> Option<(Seq<(int, int)>, Seq<(int, int)>)> {
    match r {
        Some((o, n)) => Some((pair_view(o@), pair_view(n@))),
        None => None,
    }
}

proof fn lemma_ordered_take(t: Seq<(int, int)>, n: int, i: int)
    requires
        ordered(t, n),
        0 <= i <= t.len(),
    ensures
        ordered(t.take(i), n),
{
    let u = t.take(i);
    assert forall|k: int| #![trigger u[k]] 0 <= k < u.len() implies 0 <= u[k].0 < u[k].1 <= n by {
        assert(u[k] == t[k]);
    }
    assert forall|j: int, k: int| 0 <= j < k < u.len() implies #[trigger] u[j].1 <= #[trigger] u[k].0 by {
        assert(u[j] == t[j] && u[k] == t[k]);
    }
}

/// Whether `s[from..to]` is all white space.
fn is_blank(s: &[char], from: usize, to: usize) -> (r: bool)
    requires
        from <= to <= s@.len(),
    ensures
        r == blank(s@, from as int, to as int),
{
    let mut k = from;
    while k < to
        invariant
            from <= k <= to <= s@.len(),
            blank(s@, from as int, k as int),
        decreases to - k,
    {
        if !is_whitespace(s[k]) {
            return false;
        }
        k += 1;
    }
    true
}

/// The spans with those that touch or have only white space between them
/// joined.
fn merge_spans(s: &[char], rs: &[(usize, usize)]) -> (r: Vec<(usize, usize)>)
    requires
        ordered(spans(rs@), s@.len() as int),
    ensures
        spans(r@) == merge(s@, spans(rs@)),
{
    let ghost sp = spans(rs@);
    let ghost n = s@.len() as int;
    let mut out: Vec<(usize, usize)> = Vec::new();
    let mut i: usize = 0;
    while i < rs.len()
        invariant
            i <= rs@.len(),
            sp == spans(rs@),
            n == s@.len(),
            ordered(sp, n),
            spans(out@) == merge(s@, sp.take(i as int)),
        decreases rs.len() - i,
    {
        let ghost pre = sp.take(i as int);
        proof {
            lemma_ordered_take(sp, n, i as int);
            lemma_merge(s@, pre, n);
            assert(sp.take(i + 1).drop_last() == pre);
            assert(sp.take(i + 1).last() == sp[i as int]);
            assert(0 <= sp[i as int].0 < sp[i as int].1 <= n);
            if i > 0 {
                assert(pre.last() == sp[i - 1]);
                assert(sp[i - 1].1 <= sp[i as int].0);
            }
        }
        let (start, end) = rs[i];
        if out.len() > 0 && is_blank(s, out[out.len() - 1].1, start) {
            let last = out.len() - 1;
            let first = out[last].0;
            let stop = if end > out[last].1 {
                end
            } else {
                out[last].1
            };
            out.set(last, (first, stop));
        } else {
            out.push((start, end));
        }
        assert(spans(out@) =~= merge(s@, sp.take(i + 1)));
        i += 1;
    }
    assert(sp.take(rs@.len() as int) == sp);
    out
}

fn covers_all_of(s: &[char], rs: &[(usize, usize)]) -> (r: bool)
    ensures
        r == covers_all(s@, spans(rs@)),
{
    if rs.len() == 0 {
        let t = trimmed(s);
        t.len() == 0
    } else if rs.len() == 1 {
        let lead = trim_start_at(s);
        let tail = trim_end_at(s);
        rs[0].0 <= lead && rs[0].1 >= tail
    } else {
        false
    }
}

/// The spans in UTF-16 code units.
fn utf16_spans(s: &[char], rs: &[(usize, usize)]) -> (r: Vec<[u32; 2]>)
    requires
        s@.len() <= 0x1000_0000,
        ordered(spans(rs@), s@.len() as int),
    ensures
        pair_view(r@) == units(s@, spans(rs@)),
{
    let pre = utf16_prefixes(s);
    let ghost sp = spans(rs@);
    let mut out: Vec<[u32; 2]> = Vec::new();
    let mut i: usize = 0;
    while i < rs.len()
        invariant
            i <= rs@.len(),
            sp == spans(rs@),
            ordered(sp, s@.len() as int),
            pre@.len() == s@.len() + 1,
            forall|k: int| 0 <= k <= s@.len() ==> pre@[k] == utf16_len(#[trigger] s@.take(k)),
            pair_view(out@) == units(s@, sp.take(i as int)),
        decreases rs.len() - i,
    {
        assert(0 <= sp[i as int].0 < sp[i as int].1 <= s@.len());
        let (a, b) = rs[i];
        let pair: [u32; 2] = [pre[a], pre[b]];
        assert(pair[0] == pre@[a as int] && pair[1] == pre@[b as int]);
        let ghost before = out@;
        out.push(pair);
        assert(sp.take(i + 1) == sp.take(i as int).push(sp[i as int]));
        assert(pair_view(out@) =~= pair_view(before).push((pair[0] as int, pair[1] as int)));
        assert(pair_view(out@) =~= units(s@, sp.take(i + 1)));
        i += 1;
    }
    assert(sp.take(rs@.len() as int) == sp);
    out
}

/// The changed spans of `old` and `new` in UTF-16 code units, given the edit
/// script `ops` between their words; `None` where a line is longer than
/// `MAX_LINE` bytes, the lines have too little in common, or the change is all
/// of both lines.
pub fn changes_in(old: &[char], new: &[char], ops: &[DiffOp]) -> (r: Option<(Vec<[u32; 2]>, Vec<[u32; 2]>)>)
    requires
        valid_script(ops@, texts(old@, tokens(old@)), texts(new@, tokens(new@))),
    ensures
        changes_view(r) == line_changes(old@, new@, ops@),
{
    proof {
        lemma_byte_len_bounds(old@);
        lemma_byte_len_bounds(new@);
    }
    if old.len() > MAX_LINE || new.len() > MAX_LINE {
        return None;
    }
    if byte_width(old) > MAX_LINE || byte_width(new) > MAX_LINE {
        return None;
    }
    let ta = words(old);
    let tb = words(new);
    let ghost at = texts(old@, tokens(old@));
    let ghost sa = tokens(old@);
    let ghost sb = tokens(new@);
    proof {
        lemma_tokens_tile(old@);
        lemma_tokens_tile(new@);
        lemma_tokens_len(old@);
        lemma_tokens_len(new@);
    }
    let mut po: usize = 0;
    let mut pn: usize = 0;
    let mut same: usize = 0;
    let mut old_r: Vec<(usize, usize)> = Vec::new();
    let mut new_r: Vec<(usize, usize)> = Vec::new();
    let mut i: usize = 0;
    assert(ops@.take(0) =~= Seq::<DiffOp>::empty());
    while i < ops.len()
        invariant
            i <= ops@.len(),
            old@.len() <= MAX_LINE,
            new@.len() <= MAX_LINE,
            spans(ta@) == sa,
            spans(tb@) == sb,
            sa == tokens(old@),
            sb == tokens(new@),
            at == texts(old@, sa),
            sa.len() <= old@.len(),
            sb.len() <= new@.len(),
            ordered(sa, old@.len() as int),
            ordered(sb, new@.len() as int),
            old_total(ops@) == sa.len(),
            new_total(ops@) == sb.len(),
            po == old_total(ops@.take(i as int)),
            pn == new_total(ops@.take(i as int)),
            same == same_width(ops@.take(i as int), at),
            same <= 8000 * po,
            spans(old_r@) == changed_spans(ops@.take(i as int), sa, true),
            spans(new_r@) == changed_spans(ops@.take(i as int), sb, false),
        decreases ops.len() - i,
    {
        let op = ops[i];
        let ol = op.old_len();
        let nl = op.new_len();
        let ghost cur = ops@.take(i + 1);
        proof {
            lemma_totals_prefix(ops@, i + 1);
            assert(cur.drop_last() == ops@.take(i as int));
            assert(cur.last() == op);
        }
        match op {
            DiffOp::Equal { len, .. } => {
                let mut k = po;
                let stop = po + len;
                while k < stop
                    invariant
                        po <= k <= stop <= sa.len(),
                        stop == po + len,
                        sa.len() <= old@.len(),
                        len == ol,
                        old@.len() <= MAX_LINE,
                        spans(ta@) == sa,
                        ordered(sa, old@.len() as int),
                        at == texts(old@, sa),
                        same == same_width(ops@.take(i as int), at) + trimmed_width(at, po as int, k as int),
                        same <= 8000 * k,
                    decreases po + len - k,
                {
                    assert(sa[k as int] == (ta@[k as int].0 as int, ta@[k as int].1 as int));
                    assert(0 <= sa[k as int].0 < sa[k as int].1 <= old@.len());
                    let piece = slice_of(old, ta[k].0, ta[k].1);
                    let bare = trimmed(piece.as_slice());
                    proof {
                        lemma_trim_len(piece@);
                        assert(at[k as int] == piece@);
                    }
                    let w = byte_width(bare.as_slice());
                    same = same + w;
                    k += 1;
                }
            },
            _ => {
                if ol > 0 {
                    let first = ta[po].0;
                    let last = ta[po + ol - 1].1;
                    let ghost before = old_r@;
                    old_r.push((first, last));
                    assert(spans(old_r@) =~= spans(before).push((first as int, last as int)));
                }
                if nl > 0 {
                    let first = tb[pn].0;
                    let last = tb[pn + nl - 1].1;
                    let ghost before = new_r@;
                    new_r.push((first, last));
                    assert(spans(new_r@) =~= spans(before).push((first as int, last as int)));
                }
            },
        }
        po = po + ol;
        pn = pn + nl;
        i += 1;
    }
    assert(ops@.take(ops@.len() as int) == ops@);
    let bare_old = trimmed(old);
    let bare_new = trimmed(new);
    proof {
        lemma_trim_len(old@);
        lemma_trim_len(new@);
        lemma_changed_spans(ops@, sa, old@.len() as int, true);
        lemma_changed_spans(ops@, sb, new@.len() as int, false);
    }
    let total = byte_width(bare_old.as_slice()) + byte_width(bare_new.as_slice());
    if total == 0 || 40 * same < 7 * total {
        return None;
    }
    let om = merge_spans(old, old_r.as_slice());
    let nm = merge_spans(new, new_r.as_slice());
    proof {
        lemma_merge(old@, spans(old_r@), old@.len() as int);
        lemma_merge(new@, spans(new_r@), new@.len() as int);
    }
    if covers_all_of(old, om.as_slice()) && covers_all_of(new, nm.as_slice()) {
        return None;
    }
    Some((utf16_spans(old, om.as_slice()), utf16_spans(new, nm.as_slice())))
}

/// Which words changed between a removed line and the added line that takes
/// its place: the changed `[start, end)` spans of each, in UTF-16 code units;
/// `None` where a line is longer than `MAX_LINE` bytes, the lines have too
/// little in common, or the change is all of both lines.
pub fn changed(old: &str, new: &str) -> (r: Option<(Vec<[u32; 2]>, Vec<[u32; 2]>)>)
    ensures
        changes_view(r) == line_changes(
            old@,
            new@,
            myers_of(texts(old@, tokens(old@)), texts(new@, tokens(new@))),
        ),
{
    if old.len() > MAX_LINE || new.len() > MAX_LINE {
        return None;
    }
    let o = chars_of(old);
    let n = chars_of(new);
    let ta = words(o.as_slice());
    let tb = words(n.as_slice());
    proof {
        lemma_tokens_tile(o@);
        lemma_tokens_tile(n@);
    }
    let a = token_texts(o.as_slice(), ta.as_slice());
    let b = token_texts(n.as_slice(), tb.as_slice());
    let ops = myers(a.as_slice(), 0, a.len(), b.as_slice(), 0, b.len());
    proof {
        assert(lines_seq(a@).subrange(0, a@.len() as int) == lines_seq(a@));
        assert(lines_seq(b@).subrange(0, b@.len() as int) == lines_seq(b@));
    }
    changes_in(o.as_slice(), n.as_slice(), ops.as_slice())
}

} // verus!
