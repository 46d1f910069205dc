//! User-facing text, looked up by a dotted key (`image.empty`), with `{name}`
//! placeholders filled in by [`mf`].

use crate::text::{chars_of, has_prefix, is_str, push_chars, starts_with, string_of};
use vstd::prelude::*;

verus! {

/// The message at `key`, if there is one.
pub open spec fn message(key: Seq<char>) -> Option<Seq<char>> {
    if key == "image.empty"@ {
        Some("画像が空です"@)
    } else if key == "image.unsupported_format"@ {
        Some("添付できる画像は PNG・JPEG・GIF・WebP・SVG だけです"@)
    } else if key == "image.svg_runs"@ {
        Some("スクリプトなど、実行されるものを含む SVG は添付できません"@)
    } else if key == "image.svg_external_ref"@ {
        Some("外部を参照する SVG は添付できません"@)
    } else if key == "create.internal_file_missing"@ {
        Some("内部エラー: 差分に {file} がありません"@)
    } else {
        None
    }
}

/// The message at `key`, if there is one.
pub fn lookup(key: &str) -> (r: Option<String>)
    ensures
        crate::text::opt_view(r) == message(key@),
{
    let k = chars_of(key);
    if is_str(k.as_slice(), "image.empty") {
        Some("画像が空です".to_owned())
    } else if is_str(k.as_slice(), "image.unsupported_format") {
        Some("添付できる画像は PNG・JPEG・GIF・WebP・SVG だけです".to_owned())
    } else if is_str(k.as_slice(), "image.svg_runs") {
        Some("スクリプトなど、実行されるものを含む SVG は添付できません".to_owned())
    } else if is_str(k.as_slice(), "image.svg_external_ref") {
        Some("外部を参照する SVG は添付できません".to_owned())
    } else if is_str(k.as_slice(), "create.internal_file_missing") {
        Some("内部エラー: 差分に {file} がありません".to_owned())
    } else {
        None
    }
}

/// How many messages there are.
pub fn message_count() -> (r: usize)
    ensures
        r == 5,
{
    5
}

/// The message at `key`, verbatim. Only a key that has a message may be
/// asked for.
pub fn m(key: &str) -> (r: String)
    requires
        message(key@) is Some,
    ensures
        r@ == message(key@).unwrap(),
{
    match lookup(key) {
        Some(s) => s,
        None => {
            assert(false);
            String::new()
        },
    }
}

/// `s` with every occurrence of `p` (left to right, not overlapping)
/// replaced by `w` (`str::replace`, for a non-empty `p`).
pub open spec fn replace_all(s: Seq<char>, p: Seq<char>, w: Seq<char>) -> Seq<char>
    decreases s.len(),
{
    if p.len() == 0 || s.len() == 0 {
        s
    } else if has_prefix(s, p) {
        w + replace_all(s.skip(p.len() as int), p, w)
    } else {
        seq![s[0]] + replace_all(s.drop_first(), p, w)
    }
}

/// `s` with every `p` replaced by `w`.
pub fn replace(s: &[char], p: &[char], w: &[char]) -> (r: Vec<char>)
    requires
        p@.len() > 0,
    ensures
        r@ == replace_all(s@, p@, w@),
{
    let mut out: Vec<char> = Vec::new();
    let mut i: usize = 0;
    assert(s@.skip(0) == s@);
    while i < s.len()
        invariant
            i <= s@.len(),
            p@.len() > 0,
            replace_all(s@, p@, w@) == out@ + replace_all(s@.skip(i as int), p@, w@),
        decreases s.len() - i,
    {
        let rest = crate::text::slice_of(s, i, s.len());
        assert(rest@ == s@.skip(i as int));
        if starts_with(rest.as_slice(), p) {
            let ghost before = out@;
            for j in 0..w.len()
                invariant
                    out@ == before + w@.take(j as int),
            {
                out.push(w[j]);
                assert(w@.take(j + 1) == w@.take(j as int).push(w@[j as int]));
            }
            assert(w@.take(w@.len() as int) == w@);
            assert(s@.skip(i as int).skip(p@.len() as int) == s@.skip(i + p@.len()));
            i = i + p.len();
        } else {
            let ghost before = out@;
            out.push(s[i]);
            assert(s@.skip(i as int).drop_first() == s@.skip(i + 1));
            assert(out@ == before + seq![s@[i as int]]);
            i += 1;
        }
    }
    assert(s@.skip(i as int).len() == 0);
    out
}

/// What filling `params` into `template` gives: each `{name}` replaced by
/// its value, one parameter after the other.
pub open spec fn filled(template: Seq<char>, params: Seq<(Seq<char>, Seq<char>)>) -> Seq<char>
    decreases params.len(),
{
    if params.len() == 0 {
        template
    } else {
        let last = params.last();
        replace_all(filled(template, params.drop_last()), seq!['{'] + last.0 + seq!['}'], last.1)
    }
}

pub open spec fn params_view(params: Seq<(&str, &str)>) -> Seq<(Seq<char>, Seq<char>)> {
    params.map_values(|p: (&str, &str)| (p.0@, p.1@))
}

/// `template` with each `{name}` replaced by the matching value of `params`.
pub fn fill(template: &str, params: &[(&str, &str)]) -> (r: String)
    ensures
        r@ == filled(template@, params_view(params@)),
{
    let mut out = chars_of(template);
    let mut i: usize = 0;
    while i < params.len()
        invariant
            i <= params@.len(),
            out@ == filled(template@, params_view(params@.take(i as int))),
        decreases params.len() - i,
    {
        let (name, value) = params[i];
        let mut pat: Vec<char> = Vec::new();
        pat.push('{');
        let nc = chars_of(name);
        for j in 0..nc.len()
            invariant
                pat@ == seq!['{'] + nc@.take(j as int),
        {
            pat.push(nc[j]);
            assert(nc@.take(j + 1) == nc@.take(j as int).push(nc@[j as int]));
        }
        assert(nc@.take(nc@.len() as int) == nc@);
        pat.push('}');
        let vc = chars_of(value);
        out = replace(out.as_slice(), pat.as_slice(), vc.as_slice());
        proof {
            let ps = params_view(params@.take(i + 1));
            assert(params@[i as int] == (name, value));
            assert(ps.drop_last() =~= params_view(params@.take(i as int)));
            assert(ps.last() == (name@, value@));
            assert(pat@ =~= seq!['{'] + name@ + seq!['}']);
            assert(ps.len() > 0);
            assert(filled(template@, ps) == replace_all(filled(template@, ps.drop_last()), seq!['{'] + ps.last().0 + seq!['}'], ps.last().1));
        }
        i += 1;
    }
    assert(params@.take(params@.len() as int) == params@);
    string_of(out.as_slice())
}

/// The message at `key`, with each `{name}` replaced by the matching value
/// from `params`.
pub fn mf(key: &str, params: &[(&str, &str)]) -> (r: String)
    requires
        message(key@) is Some,
    ensures
        r@ == filled(message(key@).unwrap(), params_view(params@)),
{
    let t = m(key);
    fill(t.as_str(), params)
}

} // verus!
