//! Who a comment is by: `--author`, else git's `user.name`, else its
//! `user.email`, else the login name.

use crate::text::{string_of, trim, trimmed, chars_of};
use vstd::prelude::*;

verus! {

/// The first of `values` that isn't blank, trimmed; `unknown` if none is.
pub open spec fn first_nonblank(values: Seq<Option<Seq<char>>>) -> Seq<char>
    decreases values.len(),
{
    if values.len() == 0 {
        "unknown"@
    } else {
        match values[0] {
            Some(v) => if trim(v).len() > 0 {
                trim(v)
            } else {
                first_nonblank(values.drop_first())
            },
            None => first_nonblank(values.drop_first()),
        }
    }
}

pub open spec fn opt_str_view(v: Option<&str>) -> Option<Seq<char>> {
    match v {
        Some(s) => Some(s@),
        None => None,
    }
}

/// The first of the given values that isn't blank (trimmed), or `unknown`.
pub fn pick(
    explicit: Option<&str>,
    git_name: Option<&str>,
    git_email: Option<&str>,
    login: Option<&str>,
) -> (r: String)
    ensures
        r@ == first_nonblank(
            seq![
                opt_str_view(explicit),
                opt_str_view(git_name),
                opt_str_view(git_email),
                opt_str_view(login),
            ],
        ),
{
    let values = [explicit, git_name, git_email, login];
    let ghost all = seq![
        opt_str_view(explicit),
        opt_str_view(git_name),
        opt_str_view(git_email),
        opt_str_view(login),
    ];
    let mut i: usize = 0;
    assert(all.len() == 4);
    assert(all.skip(0) == all);
    while i < 4
        invariant
            i <= 4,
            all.len() == 4,
            all == seq![
                opt_str_view(explicit),
                opt_str_view(git_name),
                opt_str_view(git_email),
                opt_str_view(login),
            ],
            values@.len() == 4,
            forall|j: int| 0 <= j < 4 ==> opt_str_view(#[trigger] values@[j]) == all[j],
            first_nonblank(all) == first_nonblank(all.skip(i as int)),
        decreases 4 - i,
    {
        let ghost rest = all.skip(i as int);
        assert(rest[0] == all[i as int]);
        assert(rest.drop_first() == all.skip(i + 1));
        if let Some(v) = values[i] {
            let t = trimmed(chars_of(v).as_slice());
            if t.len() > 0 {
                assert(values@[i as int] == Some(v));
                assert(rest[0] == Some(v@));
                let out = string_of(t.as_slice());
                return out;
            }
        }
        i += 1;
    }
    assert(all.skip(4).len() == 0);
    "unknown".to_owned()
}

} // verus!
