//! Code as tokens: a line is a list of pieces of text, each with the kind of
//! thing it is (`keyword`, `string`, ...) or none. A grammar names what a piece
//! is by a stack of scopes (`source.rust`, `string.quoted.double`, ...); here
//! is what kind the page colors each as, and how neighbours of one kind join.

use vstd::prelude::*;
use crate::text::{chars_of, has_prefix, push_str, starts_with_str, strings_of};

verus! {

/// Whether `scope` is `prefix` or something under it (`string` covers
/// `string.quoted`, not `stringy`).
pub open spec fn under_spec(scope: Seq<char>, prefix: Seq<char>) -> bool {
    &&& has_prefix(scope, prefix)
    &&& (scope.len() == prefix.len() || scope[prefix.len() as int] == '.')
}

pub fn under(scope: &[char], prefix: &str) -> (r: bool)
    ensures
        r == under_spec(scope@, prefix@),
{
    if !starts_with_str(scope, prefix) {
        return false;
    }
    let n = prefix.unicode_len();
    proof {
        assert(prefix@.len() <= scope@.len());
    }
    n == scope.len() || scope[n] == '.'
}

/// The kind the page colors a piece of by one scope, if any.
pub open spec fn kind_spec(s: Seq<char>) -> Option<Seq<char>> {
    let is = |p: Seq<char>| under_spec(s, p);
    if is("string"@) {
        Some("string"@)
    } else if is("constant.numeric"@) {
        Some("number"@)
    } else if is("constant"@) {
        Some("constant"@)
    } else if is("keyword.operator"@) {
        Some("operator"@)
    } else if is("keyword"@) || is("storage"@) {
        Some("keyword"@)
    } else if is("entity.name.function"@) || is("support.function"@) {
        Some("function"@)
    } else if is("entity.name.tag"@) {
        Some("tag"@)
    } else if is("entity.other.attribute-name"@) {
        Some("attribute"@)
    } else if is("entity.name.section"@) || is("markup.heading"@) {
        Some("heading"@)
    } else if is("entity.name"@) || is("support.type"@) || is("support.class"@) || is(
        "entity.other.inherited-class"@,
    ) {
        Some("type"@)
    } else if is("variable.parameter"@) || is("variable.language"@) {
        Some("variable"@)
    } else if is("markup.bold"@) {
        Some("strong"@)
    } else if is("markup.italic"@) {
        Some("emphasis"@)
    } else if is("markup.raw"@) || is("markup.inline.raw"@) {
        Some("raw"@)
    } else if is("markup.underline.link"@) {
        Some("link"@)
    } else {
        None
    }
}

pub open spec fn kind_view(k: Option<&'static str>) -> Option<Seq<char>> {
    match k {
        Some(s) => Some(s@),
        None => None,
    }
}

/// The kind of a piece by one scope (see `kind_spec`).
pub fn kind_of_one(scope: &str) -> (r: Option<&'static str>)
    ensures
        kind_view(r) == kind_spec(scope@),
{
    let s = chars_of(scope);
    let s = s.as_slice();
    if under(s, "string") {
        Some("string")
    } else if under(s, "constant.numeric") {
        Some("number")
    } else if under(s, "constant") {
        Some("constant")
    } else if under(s, "keyword.operator") {
        Some("operator")
    } else if under(s, "keyword") || under(s, "storage") {
        Some("keyword")
    } else if under(s, "entity.name.function") || under(s, "support.function") {
        Some("function")
    } else if under(s, "entity.name.tag") {
        Some("tag")
    } else if under(s, "entity.other.attribute-name") {
        Some("attribute")
    } else if under(s, "entity.name.section") || under(s, "markup.heading") {
        Some("heading")
    } else if under(s, "entity.name") || under(s, "support.type") || under(s, "support.class")
        || under(s, "entity.other.inherited-class") {
        Some("type")
    } else if under(s, "variable.parameter") || under(s, "variable.language") {
        Some("variable")
    } else if under(s, "markup.bold") {
        Some("strong")
    } else if under(s, "markup.italic") {
        Some("emphasis")
    } else if under(s, "markup.raw") || under(s, "markup.inline.raw") {
        Some("raw")
    } else if under(s, "markup.underline.link") {
        Some("link")
    } else {
        None
    }
}

/// The kind of the innermost of `scopes` (outermost first) that has one.
pub open spec fn innermost_kind(scopes: Seq<Seq<char>>) -> Option<Seq<char>>
    decreases scopes.len(),
{
    if scopes.len() == 0 {
        None
    } else {
        match kind_spec(scopes.last()) {
            Some(k) => Some(k),
            None => innermost_kind(scopes.drop_last()),
        }
    }
}

/// The kind of what the scopes (outermost first) say a piece is: that of the
/// innermost scope that has one (a key inside a string-like scalar is a key),
/// except that whatever is inside a comment is part of it.
pub open spec fn kind_of_spec(scopes: Seq<Seq<char>>) -> Option<Seq<char>> {
    if exists|i: int| 0 <= i < scopes.len() && under_spec(#[trigger] scopes[i], "comment"@) {
        Some("comment"@)
    } else {
        innermost_kind(scopes)
    }
}

pub fn kind_of(scopes: &[String]) -> (r: Option<&'static str>)
    ensures
        kind_view(r) == kind_of_spec(strings_of(scopes@)),
{
    let ghost ss = strings_of(scopes@);
    let mut i: usize = 0;
    while i < scopes.len()
        invariant
            i <= scopes@.len(),
            ss == strings_of(scopes@),
            forall|j: int| 0 <= j < i ==> !under_spec(#[trigger] ss[j], "comment"@),
        decreases scopes.len() - i,
    {
        let s = chars_of(scopes[i].as_str());
        if under(s.as_slice(), "comment") {
            assert(under_spec(ss[i as int], "comment"@));
            return Some("comment");
        }
        i += 1;
    }
    let mut k: usize = scopes.len();
    assert(ss.take(k as int) =~= ss);
    while k > 0
        invariant
            k <= scopes@.len(),
            ss == strings_of(scopes@),
            forall|j: int| 0 <= j < scopes@.len() ==> !under_spec(#[trigger] ss[j], "comment"@),
            innermost_kind(ss) == innermost_kind(ss.take(k as int)),
        decreases k,
    {
        let found = kind_of_one(scopes[k - 1].as_str());
        assert(ss.take(k as int).drop_last() == ss.take(k - 1));
        assert(ss.take(k as int).last() == ss[k - 1]);
        if found.is_some() {
            return found;
        }
        k -= 1;
    }
    assert(ss.take(0) =~= Seq::<Seq<char>>::empty());
    None
}

/// A piece of a line: text with the kind of thing it is, or none.
#[derive(Debug, Clone, PartialEq, Eq)]
pub enum Token {
    Plain(String),
    Kind(&'static str, String),
}

pub open spec fn token_view(t: Token) -> (Option<Seq<char>>, Seq<char>) {
    match t {
        Token::Plain(s) => (None, s@),
        Token::Kind(k, s) => (Some(k@), s@),
    }
}

pub open spec fn tokens_view(ts: Seq<Token>) -> Seq<(Option<Seq<char>>, Seq<char>)> {
    ts.map_values(|t: Token| token_view(t))
}

/// `pieces` with a piece of `text` of `kind` after them: it joins the last
/// piece when that has the same kind, so that neighbours of one kind are one
/// piece.
pub open spec fn with_piece(
    pieces: Seq<(Option<Seq<char>>, Seq<char>)>,
    kind: Option<Seq<char>>,
    text: Seq<char>,
) -> Seq<(Option<Seq<char>>, Seq<char>)> {
    if pieces.len() > 0 && pieces.last().0 == kind {
        pieces.update(pieces.len() - 1, (kind, pieces.last().1 + text))
    } else {
        pieces.push((kind, text))
    }
}

fn same_kind(a: Option<&'static str>, b: Option<&'static str>) -> (r: bool)
    ensures
        r == (kind_view(a) == kind_view(b)),
{
    match (a, b) {
        (None, None) => true,
        (Some(x), Some(y)) => {
            let xs = chars_of(x);
            let ys = chars_of(y);
            crate::text::same_chars(xs.as_slice(), ys.as_slice())
        },
        _ => false,
    }
}

impl Token {
    pub fn kind(&self) -> (r: Option<&'static str>)
        ensures
            kind_view(r) == token_view(*self).0,
    {
        match self {
            Token::Plain(_) => None,
            Token::Kind(k, _) => Some(*k),
        }
    }

    pub fn text(&self) -> (r: &str)
        ensures
            r@ == token_view(*self).1,
    {
        match self {
            Token::Plain(t) => t.as_str(),
            Token::Kind(_, t) => t.as_str(),
        }
    }
}

/// Adds a piece of `text` of `kind` to the line's pieces (see `with_piece`).
pub fn push_piece(pieces: &mut Vec<Token>, kind: Option<&'static str>, text: &str)
    ensures
        tokens_view(final(pieces)@) == with_piece(tokens_view(old(pieces)@), kind_view(kind), text@),
{
    let n = pieces.len();
    if n > 0 && same_kind(pieces[n - 1].kind(), kind) {
        let last = pieces.pop().unwrap();
        let joined = match last {
            Token::Plain(mut t) => {
                push_str(&mut t, text);
                Token::Plain(t)
            },
            Token::Kind(k, mut t) => {
                push_str(&mut t, text);
                Token::Kind(k, t)
            },
        };
        pieces.push(joined);
        assert(tokens_view(pieces@) =~= with_piece(tokens_view(old(pieces)@), kind_view(kind), text@));
    } else {
        let piece = match kind {
            Some(k) => Token::Kind(k, text.to_string()),
            None => Token::Plain(text.to_string()),
        };
        pieces.push(piece);
        assert(tokens_view(pieces@) =~= with_piece(tokens_view(old(pieces)@), kind_view(kind), text@));
    }
}

} // verus!
