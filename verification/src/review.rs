//! The review's state beside its events: its title, whether white space is
//! ignored, and the reactions to comments.

use crate::model::{copy_anchor, Anchor, AnchorV, Event, Reaction, Reactions, Settings};
use crate::text::{chars_of, copy_string, same_chars, same_string, string_of, trim, trimmed};
use vstd::prelude::*;

verus! {

/// A thread as its events leave it: the root comment, its current anchor,
/// whether it is resolved, and its replies. Its id is the value of the root
/// comment's ULID, and each time is the RFC 3339 text of when it was written.
pub struct Thread {
    pub root_id: u128,
    pub author: String,
    pub created_at: String,
    pub body: String,
    /// The root comment's own anchor, or the latest one it was moved to.
    pub anchor: Anchor,
    pub resolved: bool,
    pub replies: Vec<Reply>,
}

/// A reply to a thread.
pub struct Reply {
    pub author: String,
    pub created_at: String,
    pub body: String,
}

/// The review's title, if it has one: the setting, trimmed, when not blank.
pub open spec fn title_spec(settings: Settings) -> Option<Seq<char>> {
    match settings.title {
        Some(t) => if trim(t@).len() > 0 {
            Some(trim(t@))
        } else {
            None
        },
        None => None,
    }
}

/// The review's title, if it has one.
pub fn title(settings: &Settings) -> (r: Option<String>)
    ensures
        crate::text::opt_view(r) == title_spec(*settings),
{
    match &settings.title {
        Some(t) => {
            let tc = trimmed(chars_of(t.as_str()).as_slice());
            if tc.len() > 0 {
                Some(string_of(tc.as_slice()))
            } else {
                None
            }
        },
        None => None,
    }
}

/// Makes `wanted` (trimmed) the title -- an empty one takes the title away;
/// whether that changed anything.
pub fn set_title(settings: &mut Settings, wanted: &str) -> (r: bool)
    ensures
        ({
            let w = trim(wanted@);
            let now = match title_spec(*old(settings)) {
                Some(t) => t,
                None => Seq::<char>::empty(),
            };
            &&& r == (now != w)
            &&& r ==> crate::text::opt_view(final(settings).title) == if w.len() == 0 {
                None
            } else {
                Some(w)
            }
            &&& !r ==> *final(settings) == *old(settings)
            &&& final(settings).attachment_limit == old(settings).attachment_limit
            &&& final(settings).ignore_whitespace == old(settings).ignore_whitespace
        }),
{
    let w = trimmed(chars_of(wanted).as_slice());
    let now: Vec<char> = match title(settings) {
        Some(t) => chars_of(t.as_str()),
        None => Vec::new(),
    };
    assert(title_spec(*settings) is None ==> now@ =~= Seq::<char>::empty());
    if same_chars(now.as_slice(), w.as_slice()) {
        return false;
    }
    settings.title = if w.len() == 0 {
        None
    } else {
        Some(string_of(w.as_slice()))
    };
    true
}

/// Makes ignoring white space `wanted`; whether that changed anything.
pub fn set_ignore_whitespace(settings: &mut Settings, wanted: bool) -> (r: bool)
    ensures
        r == (old(settings).ignore_whitespace != wanted),
        final(settings).ignore_whitespace == wanted,
        final(settings).title == old(settings).title,
        final(settings).attachment_limit == old(settings).attachment_limit,
{
    if settings.ignore_whitespace == wanted {
        return false;
    }
    settings.ignore_whitespace = wanted;
    true
}

/// One emoji and who reacted with it.
pub struct ReactionV {
    pub emoji: Seq<char>,
    pub authors: Seq<Seq<char>>,
}

pub open spec fn strings_view(v: Seq<String>) -> Seq<Seq<char>> {
    v.map_values(|s: String| s@)
}

pub open spec fn reaction_view(r: Reaction) -> ReactionV {
    ReactionV { emoji: r.emoji@, authors: strings_view(r.authors@) }
}

pub open spec fn reactions_list(v: Seq<Reaction>) -> Seq<ReactionV> {
    v.map_values(|r: Reaction| reaction_view(r))
}

/// The index of the first `x` in `v`, if any.
pub open spec fn index_of<T>(v: Seq<T>, x: T) -> Option<int>
    decreases v.len(),
{
    if v.len() == 0 {
        None
    } else if v[0] == x {
        Some(0)
    } else {
        match index_of(v.drop_first(), x) {
            Some(i) => Some(i + 1),
            None => None,
        }
    }
}

/// The index of the first reaction with `emoji`, if any.
pub open spec fn emoji_index(v: Seq<ReactionV>, emoji: Seq<char>) -> Option<int>
    decreases v.len(),
{
    if v.len() == 0 {
        None
    } else if v[0].emoji == emoji {
        Some(0)
    } else {
        match emoji_index(v.drop_first(), emoji) {
            Some(i) => Some(i + 1),
            None => None,
        }
    }
}

/// One comment's reactions after `author` toggles `emoji`, and whether the
/// reaction is there now: taken back if it was there (an emoji nobody has any
/// more goes), added (after the others) if not.
pub open spec fn toggled(list: Seq<ReactionV>, emoji: Seq<char>, author: Seq<char>) -> (Seq<ReactionV>, bool) {
    match emoji_index(list, emoji) {
        Some(i) => {
            let r = list[i];
            match index_of(r.authors, author) {
                Some(at) => {
                    let authors = r.authors.remove(at);
                    if authors.len() == 0 {
                        (list.remove(i), false)
                    } else {
                        (list.update(i, ReactionV { authors, ..r }), false)
                    }
                },
                None => (list.update(i, ReactionV { authors: r.authors.push(author), ..r }), true),
            }
        },
        None => (list.push(ReactionV { emoji, authors: seq![author] }), true),
    }
}

/// The reactions as a map from comment id.
pub open spec fn reactions_map(entries: Seq<(String, Vec<Reaction>)>) -> Map<Seq<char>, Seq<ReactionV>>
    decreases entries.len(),
{
    if entries.len() == 0 {
        Map::empty()
    } else {
        let last = entries.last();
        reactions_map(entries.drop_last()).insert(last.0@, reactions_list(last.1@))
    }
}

/// No comment id is there twice, and none has an empty list.
pub open spec fn reactions_wf(entries: Seq<(String, Vec<Reaction>)>) -> bool {
    &&& forall|i: int, j: int| 0 <= i < j < entries.len() ==> entries[i].0@ != entries[j].0@
    &&& forall|i: int| 0 <= i < entries.len() ==> (#[trigger] entries[i]).1@.len() > 0
}

impl Reactions {
    pub open spec fn view_map(&self) -> Map<Seq<char>, Seq<ReactionV>> {
        reactions_map(self.entries@)
    }

    pub open spec fn wf(&self) -> bool {
        reactions_wf(self.entries@)
    }

    pub fn new() -> (r: Reactions)
        ensures
            r.wf(),
            r.view_map() == Map::<Seq<char>, Seq<ReactionV>>::empty(),
    {
        Reactions { entries: Vec::new() }
    }

    /// Whether no comment has a reaction.
    pub fn is_empty(&self) -> (r: bool)
        requires
            self.wf(),
        ensures
            r == (self.view_map().dom().len() == 0),
    {
        proof {
            lemma_map_dom_len(self.entries@);
        }
        self.entries.len() == 0
    }

    /// Where the entry for `comment` is.
    fn position(&self, comment: &String) -> (r: Option<usize>)
        requires
            self.wf(),
        ensures
            match r {
                Some(i) => i < self.entries@.len() && self.entries@[i as int].0@ == comment@,
                None => forall|i: int| 0 <= i < self.entries@.len() ==> self.entries@[i].0@ != comment@,
            },
    {
        for i in 0..self.entries.len()
            invariant
                forall|j: int| 0 <= j < i ==> self.entries@[j].0@ != comment@,
        {
            if same_string(&self.entries[i].0, comment) {
                return Some(i);
            }
        }
        None
    }

    /// The reactions to `comment`, if it has any.
    pub fn get(&self, comment: &str) -> (r: Option<&Vec<Reaction>>)
        requires
            self.wf(),
        ensures
            match r {
                Some(v) => self.view_map().contains_key(comment@) && self.view_map()[comment@]
                    == reactions_list(v@),
                None => !self.view_map().contains_key(comment@),
            },
    {
        let key = comment.to_owned();
        match self.position(&key) {
            Some(i) => {
                proof {
                    lemma_map_at(self.entries@, i as int);
                }
                Some(&self.entries[i].1)
            },
            None => {
                proof {
                    lemma_map_absent(self.entries@, comment@);
                }
                None
            },
        }
    }
}

pub proof fn lemma_map_dom_len(entries: Seq<(String, Vec<Reaction>)>)
    requires
        reactions_wf(entries),
    ensures
        reactions_map(entries).dom().len() == entries.len(),
        reactions_map(entries).dom().finite(),
    decreases entries.len(),
{
    if entries.len() > 0 {
        let rest = entries.drop_last();
        assert(reactions_wf(rest)) by {
            assert forall|i: int| 0 <= i < rest.len() implies (#[trigger] rest[i]).1@.len() > 0 by {
                assert(rest[i] == entries[i]);
            }
        }
        lemma_map_dom_len(rest);
        lemma_map_absent(rest, entries.last().0@);
    }
}

pub proof fn lemma_map_absent(entries: Seq<(String, Vec<Reaction>)>, k: Seq<char>)
    requires
        forall|i: int| 0 <= i < entries.len() ==> entries[i].0@ != k,
    ensures
        !reactions_map(entries).contains_key(k),
    decreases entries.len(),
{
    if entries.len() > 0 {
        lemma_map_absent(entries.drop_last(), k);
    }
}

pub proof fn lemma_map_at(entries: Seq<(String, Vec<Reaction>)>, i: int)
    requires
        reactions_wf(entries),
        0 <= i < entries.len(),
    ensures
        reactions_map(entries).contains_key(entries[i].0@),
        reactions_map(entries)[entries[i].0@] == reactions_list(entries[i].1@),
    decreases entries.len(),
{
    if i < entries.len() - 1 {
        let rest = entries.drop_last();
        assert(reactions_wf(rest)) by {
            assert forall|a: int| 0 <= a < rest.len() implies (#[trigger] rest[a]).1@.len() > 0 by {
                assert(rest[a] == entries[a]);
            }
        }
        assert(rest[i] == entries[i]);
        lemma_map_at(rest, i);
    }
}

/// The map after entry `i` is replaced by `e` (same key).
pub proof fn lemma_map_update(entries: Seq<(String, Vec<Reaction>)>, i: int, e: (String, Vec<Reaction>))
    requires
        0 <= i < entries.len(),
        entries[i].0@ == e.0@,
        forall|a: int, b: int| 0 <= a < b < entries.len() ==> entries[a].0@ != entries[b].0@,
    ensures
        reactions_map(entries.update(i, e)) == reactions_map(entries).insert(e.0@, reactions_list(e.1@)),
    decreases entries.len(),
{
    if i < entries.len() - 1 {
        let rest = entries.drop_last();
        assert(entries.update(i, e).drop_last() == rest.update(i, e));
        lemma_map_update(rest, i, e);
        assert(entries.last().0@ != e.0@);
        assert(reactions_map(entries.update(i, e)) =~= reactions_map(entries).insert(e.0@, reactions_list(e.1@)));
    } else {
        assert(entries.update(i, e).drop_last() == entries.drop_last());
        assert(reactions_map(entries.update(i, e)) =~= reactions_map(entries).insert(e.0@, reactions_list(e.1@)));
    }
}

/// The map after entry `i` is taken out.
pub proof fn lemma_map_remove(entries: Seq<(String, Vec<Reaction>)>, i: int)
    requires
        0 <= i < entries.len(),
        forall|a: int, b: int| 0 <= a < b < entries.len() ==> entries[a].0@ != entries[b].0@,
    ensures
        reactions_map(entries.remove(i)) == reactions_map(entries).remove(entries[i].0@),
    decreases entries.len(),
{
    let k = entries[i].0@;
    if i < entries.len() - 1 {
        let rest = entries.drop_last();
        assert(entries.remove(i).drop_last() == rest.remove(i));
        assert(entries.remove(i).last() == entries.last());
        lemma_map_remove(rest, i);
        assert(reactions_map(entries.remove(i)) =~= reactions_map(entries).remove(k));
    } else {
        assert(entries.remove(i) == entries.drop_last());
        lemma_map_absent(entries.drop_last(), k);
        assert(reactions_map(entries.remove(i)) =~= reactions_map(entries).remove(k));
    }
}

fn find_emoji(list: &Vec<Reaction>, emoji: &String) -> (r: Option<usize>)
    ensures
        match r {
            Some(i) => emoji_index(reactions_list(list@), emoji@) == Some(i as int) && i < list@.len(),
            None => emoji_index(reactions_list(list@), emoji@) is None,
        },
{
    let ghost v = reactions_list(list@);
    for i in 0..list.len()
        invariant
            v == reactions_list(list@),
            forall|j: int| 0 <= j < i ==> v[j].emoji != emoji@,
    {
        if same_string(&list[i].emoji, emoji) {
            proof {
                lemma_emoji_index_at(v, emoji@, i as int);
            }
            return Some(i);
        }
    }
    proof {
        lemma_emoji_index_none(v, emoji@);
    }
    None
}

pub proof fn lemma_emoji_index_at(v: Seq<ReactionV>, e: Seq<char>, i: int)
    requires
        0 <= i < v.len(),
        v[i].emoji == e,
        forall|j: int| 0 <= j < i ==> v[j].emoji != e,
    ensures
        emoji_index(v, e) == Some(i),
    decreases i,
{
    if i > 0 {
        lemma_emoji_index_at(v.drop_first(), e, i - 1);
    }
}

pub proof fn lemma_emoji_index_none(v: Seq<ReactionV>, e: Seq<char>)
    requires
        forall|j: int| 0 <= j < v.len() ==> v[j].emoji != e,
    ensures
        emoji_index(v, e) is None,
    decreases v.len(),
{
    if v.len() > 0 {
        lemma_emoji_index_none(v.drop_first(), e);
    }
}

pub proof fn lemma_index_of_at<T>(v: Seq<T>, x: T, i: int)
    requires
        0 <= i < v.len(),
        v[i] == x,
        forall|j: int| 0 <= j < i ==> v[j] != x,
    ensures
        index_of(v, x) == Some(i),
    decreases i,
{
    if i > 0 {
        lemma_index_of_at(v.drop_first(), x, i - 1);
    }
}

pub proof fn lemma_index_of_none<T>(v: Seq<T>, x: T)
    requires
        forall|j: int| 0 <= j < v.len() ==> v[j] != x,
    ensures
        index_of(v, x) is None,
    decreases v.len(),
{
    if v.len() > 0 {
        lemma_index_of_none(v.drop_first(), x);
    }
}

fn find_author(authors: &Vec<String>, a: &String) -> (r: Option<usize>)
    ensures
        match r {
            Some(k) => k < authors@.len() && index_of(strings_view(authors@), a@) == Some(k as int),
            None => index_of(strings_view(authors@), a@) is None,
        },
{
    let ghost v = strings_view(authors@);
    for k in 0..authors.len()
        invariant
            v == strings_view(authors@),
            forall|j: int| 0 <= j < k ==> v[j] != a@,
    {
        if same_string(&authors[k], a) {
            proof {
                lemma_index_of_at(v, a@, k as int);
            }
            return Some(k);
        }
    }
    proof {
        lemma_index_of_none(v, a@);
    }
    None
}

/// `author` toggling `emoji` on one comment's reactions.
fn toggle_in(list: &mut Vec<Reaction>, emoji: &str, author: &str) -> (r: bool)
    ensures
        (reactions_list(final(list)@), r) == toggled(reactions_list(old(list)@), emoji@, author@),
{
    let e = emoji.to_owned();
    let a = author.to_owned();
    let ghost before = reactions_list(list@);
    match find_emoji(list, &e) {
        Some(i) => {
            let found = find_author(&list[i].authors, &a);
            let ghost authors = strings_view(list@[i as int].authors@);
            match found {
                Some(at) => {
                    let mut r = list.remove(i);
                    r.authors.remove(at);
                    assert(strings_view(r.authors@) =~= authors.remove(at as int));
                    if r.authors.len() == 0 {
                        assert(reactions_list(list@) =~= before.remove(i as int));
                    } else {
                        list.insert(i, r);
                        assert(reactions_list(list@) =~= before.update(
                            i as int,
                            ReactionV { authors: authors.remove(at as int), ..before[i as int] },
                        ));
                    }
                    false
                },
                None => {
                    let mut r = list.remove(i);
                    r.authors.push(a);
                    assert(strings_view(r.authors@) =~= authors.push(author@));
                    list.insert(i, r);
                    assert(reactions_list(list@) =~= before.update(
                        i as int,
                        ReactionV { authors: authors.push(author@), ..before[i as int] },
                    ));
                    true
                },
            }
        },
        None => {
            let mut authors: Vec<String> = Vec::new();
            authors.push(a);
            let r = Reaction { emoji: e, authors };
            assert(strings_view(r.authors@) =~= seq![author@]);
            list.push(r);
            assert(reactions_list(list@) =~= before.push(ReactionV { emoji: emoji@, authors: seq![author@] }));
            true
        },
    }
}

/// The reactions to one comment (none if it has none).
pub open spec fn reactions_of(m: Map<Seq<char>, Seq<ReactionV>>, comment: Seq<char>) -> Seq<ReactionV> {
    if m.contains_key(comment) {
        m[comment]
    } else {
        Seq::empty()
    }
}

/// The reactions after `author` toggles `emoji` on `comment`, and whether
/// the reaction is there now; a comment left with none is taken out.
pub open spec fn toggle_map(m: Map<Seq<char>, Seq<ReactionV>>, comment: Seq<char>, emoji: Seq<char>, author: Seq<char>) -> (
    Map<Seq<char>, Seq<ReactionV>>,
    bool,
) {
    let (after, now) = toggled(reactions_of(m, comment), emoji, author);
    (if after.len() == 0 {
        m.remove(comment)
    } else {
        m.insert(comment, after)
    }, now)
}

/// Whether `author` has reacted to `comment` with `emoji`.
pub open spec fn has_reacted(m: Map<Seq<char>, Seq<ReactionV>>, comment: Seq<char>, emoji: Seq<char>, author: Seq<char>) -> bool {
    match emoji_index(reactions_of(m, comment), emoji) {
        Some(i) => reactions_of(m, comment)[i].authors.contains(author),
        None => false,
    }
}

pub proof fn lemma_emoji_index_props(v: Seq<ReactionV>, e: Seq<char>)
    ensures
        match emoji_index(v, e) {
            Some(i) => 0 <= i < v.len() && v[i].emoji == e && forall|j: int| 0 <= j < i ==> v[j].emoji != e,
            None => forall|j: int| 0 <= j < v.len() ==> v[j].emoji != e,
        },
    decreases v.len(),
{
    if v.len() > 0 {
        lemma_emoji_index_props(v.drop_first(), e);
        if v[0].emoji != e {
            assert forall|j: int| 1 <= j < v.len() implies v[j] == v.drop_first()[j - 1] by {}
        }
    }
}

pub proof fn lemma_index_of_props<T>(v: Seq<T>, x: T)
    ensures
        match index_of(v, x) {
            Some(i) => 0 <= i < v.len() && v[i] == x && forall|j: int| 0 <= j < i ==> v[j] != x,
            None => forall|j: int| 0 <= j < v.len() ==> v[j] != x,
        },
    decreases v.len(),
{
    if v.len() > 0 {
        lemma_index_of_props(v.drop_first(), x);
        if v[0] != x {
            assert forall|j: int| 1 <= j < v.len() implies v[j] == v.drop_first()[j - 1] by {}
        }
    }
}

/// A reaction added by someone is taken back by that person: toggling the
/// same reaction twice, where it was not there, leaves the reactions as
/// they were, and says first that it is there, then that it is not (each
/// emoji the comment has being someone's).
pub proof fn lemma_toggle_back(m: Map<Seq<char>, Seq<ReactionV>>, comment: Seq<char>, emoji: Seq<char>, author: Seq<char>)
    requires
        !has_reacted(m, comment, emoji, author),
        m.contains_key(comment) ==> m[comment].len() > 0,
        forall|j: int| 0 <= j < reactions_of(m, comment).len() ==> (#[trigger] reactions_of(m, comment)[j]).authors.len() > 0,
    ensures
        toggle_map(m, comment, emoji, author).1,
        !toggle_map(toggle_map(m, comment, emoji, author).0, comment, emoji, author).1,
        toggle_map(toggle_map(m, comment, emoji, author).0, comment, emoji, author).0 == m,
{
    let list = reactions_of(m, comment);
    let l1 = toggled(list, emoji, author).0;
    let m1 = toggle_map(m, comment, emoji, author).0;
    lemma_emoji_index_props(list, emoji);
    match emoji_index(list, emoji) {
        Some(i) => {
            let r = list[i];
            lemma_index_of_props(r.authors, author);
            assert(!r.authors.contains(author));
            let r1 = ReactionV { authors: r.authors.push(author), ..r };
            assert(l1 == list.update(i, r1));
            assert(l1.len() > 0);
            assert(m1 == m.insert(comment, l1));
            assert(reactions_of(m1, comment) == l1);
            assert forall|j: int| 0 <= j < i implies l1[j].emoji != emoji by {}
            lemma_emoji_index_at(l1, emoji, i);
            assert forall|j: int| 0 <= j < r.authors.len() implies r1.authors[j] != author by {
                assert(r1.authors[j] == r.authors[j]);
            }
            lemma_index_of_at(r1.authors, author, r.authors.len() as int);
            assert(r1.authors.remove(r.authors.len() as int) =~= r.authors);
            assert(r.authors.len() > 0 ==> l1.update(i, ReactionV { authors: r.authors, ..r1 }) =~= list);
            assert(m.contains_key(comment));
            assert(m.insert(comment, list) =~= m);
            if r.authors.len() == 0 {
                // An emoji with nobody is never kept, but if it were, it goes.
                assert(l1.remove(i).len() == list.len() - 1);
            }
            assert(m1.insert(comment, list) =~= m || r.authors.len() == 0);
        },
        None => {
            let nr = ReactionV { emoji, authors: seq![author] };
            assert(l1 == list.push(nr));
            assert(l1.len() > 0);
            assert(m1 == m.insert(comment, l1));
            assert(reactions_of(m1, comment) == l1);
            assert forall|j: int| 0 <= j < list.len() implies l1[j].emoji != emoji by {
                assert(l1[j] == list[j]);
            }
            lemma_emoji_index_at(l1, emoji, list.len() as int);
            lemma_index_of_at(nr.authors, author, 0);
            assert(nr.authors.remove(0).len() == 0);
            assert(l1.remove(list.len() as int) =~= list);
            if m.contains_key(comment) {
                assert(m1.insert(comment, list) =~= m);
            } else {
                assert(list.len() == 0);
                assert(m1.remove(comment) =~= m);
            }
        },
    }
}

/// `author` reacting to a comment with `emoji`: taken back if it was there,
/// added if not. Whether the reaction is there now. A comment left with no
/// reaction is taken out.
pub fn toggle_reaction(reactions: &mut Reactions, comment: &str, emoji: &str, author: &str) -> (r: bool)
    requires
        old(reactions).wf(),
    ensures
        final(reactions).wf(),
        (final(reactions).view_map(), r) == toggle_map(old(reactions).view_map(), comment@, emoji@, author@),
{
    let key = comment.to_owned();
    let ghost old_entries = reactions.entries@;
    match reactions.position(&key) {
        Some(i) => {
            proof {
                lemma_map_at(old_entries, i as int);
            }
            let (k, mut list) = reactions.entries.remove(i);
            let now = toggle_in(&mut list, emoji, author);
            if list.len() == 0 {
                proof {
                    lemma_map_remove(old_entries, i as int);
                }
                assert(reactions.entries@ == old_entries.remove(i as int));
                proof {
                    assert forall|a: int, b: int|
                        0 <= a < b < reactions.entries@.len() implies reactions.entries@[a].0@
                        != reactions.entries@[b].0@ by {
                        let a2 = if a < i { a } else { a + 1 };
                        let b2 = if b < i { b } else { b + 1 };
                        assert(reactions.entries@[a] == old_entries[a2]);
                        assert(reactions.entries@[b] == old_entries[b2]);
                    }
                    assert forall|a: int| 0 <= a < reactions.entries@.len() implies (
                    #[trigger] reactions.entries@[a]).1@.len() > 0 by {
                        let a2 = if a < i { a } else { a + 1 };
                        assert(reactions.entries@[a] == old_entries[a2]);
                    }
                }
            } else {
                let ghost e = (k, list);
                reactions.entries.insert(i, (k, list));
                assert(reactions.entries@ =~= old_entries.update(i as int, e));
                proof {
                    lemma_map_update(old_entries, i as int, e);
                    assert forall|a: int| 0 <= a < reactions.entries@.len() implies (
                    #[trigger] reactions.entries@[a]).1@.len() > 0 by {
                        if a != i {
                            assert(reactions.entries@[a] == old_entries[a]);
                        }
                    }
                }
            }
            now
        },
        None => {
            proof {
                lemma_map_absent(old_entries, comment@);
            }
            let mut list: Vec<Reaction> = Vec::new();
            assert(reactions_list(list@) =~= Seq::<ReactionV>::empty());
            let now = toggle_in(&mut list, emoji, author);
            assert(reactions_list(list@).len() == 1);
            let ghost e = (key, list);
            reactions.entries.push((key, list));
            assert(reactions.entries@ =~= old_entries.push(e));
            proof {
                assert(reactions.entries@.drop_last() == old_entries);
                assert(reactions_map(reactions.entries@) == reactions_map(old_entries).insert(
                    comment@,
                    reactions_list(list@),
                ));
                assert forall|a: int, b: int|
                    0 <= a < b < reactions.entries@.len() implies reactions.entries@[a].0@
                    != reactions.entries@[b].0@ by {
                    if b == reactions.entries@.len() - 1 {
                        assert(reactions.entries@[a] == old_entries[a]);
                    } else {
                        assert(reactions.entries@[a] == old_entries[a]);
                        assert(reactions.entries@[b] == old_entries[b]);
                    }
                }
                assert forall|a: int| 0 <= a < reactions.entries@.len() implies (
                #[trigger] reactions.entries@[a]).1@.len() > 0 by {
                    if a < old_entries.len() {
                        assert(reactions.entries@[a] == old_entries[a]);
                    }
                }
            }
            now
        },
    }
}

// ---- threads from the log ---------------------------------------------------------------

pub struct ThreadV {
    pub root_id: u128,
    pub author: Seq<char>,
    pub created_at: Seq<char>,
    pub body: Seq<char>,
    pub anchor: AnchorV,
    pub resolved: bool,
    /// (author, time, body) of each reply.
    pub replies: Seq<(Seq<char>, Seq<char>, Seq<char>)>,
}

pub open spec fn reply_view(r: Reply) -> (Seq<char>, Seq<char>, Seq<char>) {
    (r.author@, r.created_at@, r.body@)
}

pub open spec fn thread_view(t: Thread) -> ThreadV {
    ThreadV {
        root_id: t.root_id,
        author: t.author@,
        created_at: t.created_at@,
        body: t.body@,
        anchor: t.anchor@,
        resolved: t.resolved,
        replies: t.replies@.map_values(|r: Reply| reply_view(r)),
    }
}

/// The log read so far: the ids of the roots in the order they came, and
/// each thread by its id.
pub struct Fold {
    pub order: Seq<u128>,
    pub map: Map<u128, ThreadV>,
}

/// What one entry of the log does to the threads. Replies, resolves,
/// reopens and new anchors for a thread that was never created are dropped.
pub open spec fn fold_step(f: Fold, e: Event) -> Fold {
    match e {
        Event::Comment { id, parent: None, author, created_at, body, anchor: Some(a) } => Fold {
            order: f.order.push(id),
            map: f.map.insert(
                id,
                ThreadV {
                    root_id: id,
                    author: author@,
                    created_at: created_at@,
                    body: body@,
                    anchor: a@,
                    resolved: false,
                    replies: Seq::empty(),
                },
            ),
        },
        Event::Comment { parent: Some(p), author, created_at, body, .. } => if f.map.contains_key(p) {
            Fold {
                map: f.map.insert(p, ThreadV { replies: f.map[p].replies.push((author@, created_at@, body@)), ..f.map[p] }),
                ..f
            }
        } else {
            f
        },
        Event::Resolve { parent, .. } => if f.map.contains_key(parent) {
            Fold { map: f.map.insert(parent, ThreadV { resolved: true, ..f.map[parent] }), ..f }
        } else {
            f
        },
        Event::Reopen { parent, .. } => if f.map.contains_key(parent) {
            Fold { map: f.map.insert(parent, ThreadV { resolved: false, ..f.map[parent] }), ..f }
        } else {
            f
        },
        Event::Reanchor { parent, anchor, .. } => if f.map.contains_key(parent) {
            Fold { map: f.map.insert(parent, ThreadV { anchor: anchor@, ..f.map[parent] }), ..f }
        } else {
            f
        },
        _ => f,
    }
}

pub open spec fn fold_events(events: Seq<Event>) -> Fold
    decreases events.len(),
{
    if events.len() == 0 {
        Fold { order: Seq::empty(), map: Map::empty() }
    } else {
        fold_step(fold_events(events.drop_last()), events.last())
    }
}

/// The threads in the order of `order`, each once.
pub open spec fn collect(order: Seq<u128>, map: Map<u128, ThreadV>) -> Seq<ThreadV>
    decreases order.len(),
{
    if order.len() == 0 {
        Seq::empty()
    } else if map.contains_key(order[0]) {
        seq![map[order[0]]] + collect(order.drop_first(), map.remove(order[0]))
    } else {
        collect(order.drop_first(), map)
    }
}

/// The threads of a log, in the order their roots first came.
pub open spec fn threads_spec(events: Seq<Event>) -> Seq<ThreadV> {
    let f = fold_events(events);
    collect(f.order, f.map)
}

/// What the log read so far always is: each thread is held under its own
/// root id, which came in `order`.
pub open spec fn fold_inv(f: Fold) -> bool {
    forall|k: u128| #[trigger] f.map.contains_key(k) ==> f.map[k].root_id == k && f.order.contains(k)
}

proof fn lemma_fold_inv(events: Seq<Event>)
    ensures
        fold_inv(fold_events(events)),
    decreases events.len(),
{
    if events.len() > 0 {
        lemma_fold_inv(events.drop_last());
        let f = fold_events(events.drop_last());
        let g = fold_events(events);
        assert forall|k: u128| #[trigger] g.map.contains_key(k) implies g.map[k].root_id == k && g.order.contains(k) by {
            if f.map.contains_key(k) {
                assert(f.order.contains(k));
                let i = choose|i: int| 0 <= i < f.order.len() && f.order[i] == k;
                match events.last() {
                    Event::Comment { id, parent: None, anchor: Some(a), .. } => {
                        assert(g.order[i] == k);
                    },
                    _ => {},
                }
            } else {
                match events.last() {
                    Event::Comment { id, parent: None, anchor: Some(a), .. } => {
                        assert(g.order[g.order.len() - 1] == id);
                    },
                    _ => {},
                }
            }
        }
    }
}

/// The threads `collect` gives are those `map` holds, each under its root id.
proof fn lemma_collect_from(order: Seq<u128>, map: Map<u128, ThreadV>)
    requires
        forall|k: u128| #[trigger] map.contains_key(k) ==> map[k].root_id == k,
    ensures
        forall|i: int| 0 <= i < collect(order, map).len() ==> map.contains_key(#[trigger] collect(order, map)[i].root_id)
            && collect(order, map)[i] == map[collect(order, map)[i].root_id],
        forall|k: u128| order.contains(k) && map.contains_key(k) ==> exists|i: int|
            0 <= i < collect(order, map).len() && (#[trigger] collect(order, map)[i]).root_id == k,
    decreases order.len(),
{
    if order.len() > 0 {
        let k0 = order[0];
        let rest = order.drop_first();
        if map.contains_key(k0) {
            let m2 = map.remove(k0);
            lemma_collect_from(rest, m2);
            let c = collect(order, map);
            let c2 = collect(rest, m2);
            assert(c == seq![map[k0]] + c2);
            assert forall|k: u128| order.contains(k) && map.contains_key(k) implies exists|i: int|
                0 <= i < c.len() && (#[trigger] c[i]).root_id == k by {
                if k == k0 {
                    assert(c[0].root_id == k);
                } else {
                    let j = choose|j: int| 0 <= j < order.len() && order[j] == k;
                    assert(rest[j - 1] == k);
                    assert(rest.contains(k));
                    let i = choose|i: int| 0 <= i < c2.len() && (#[trigger] c2[i]).root_id == k;
                    assert(c[i + 1] == c2[i]);
                }
            }
            assert forall|i: int| 0 <= i < c.len() implies map.contains_key(#[trigger] c[i].root_id)
                && c[i] == map[c[i].root_id] by {
                if i > 0 {
                    assert(c[i] == c2[i - 1]);
                }
            }
        } else {
            lemma_collect_from(rest, map);
            assert forall|k: u128| order.contains(k) && map.contains_key(k) implies exists|i: int|
                0 <= i < collect(order, map).len() && (#[trigger] collect(order, map)[i]).root_id == k by {
                let j = choose|j: int| 0 <= j < order.len() && order[j] == k;
                assert(j != 0);
                assert(rest[j - 1] == k);
                assert(rest.contains(k));
            }
        }
    }
}

/// Reopening a thread makes it unresolved: when the last entry of a log
/// reopens a thread the log had, that thread is still there and is not
/// resolved, whatever came before (a resolve included).
pub proof fn lemma_reopen_unresolves(events: Seq<Event>, p: u128)
    requires
        events.len() > 0,
        events.last() matches Event::Reopen { parent, .. } && parent == p,
        exists|i: int|
            0 <= i < threads_spec(events.drop_last()).len() && (#[trigger] threads_spec(events.drop_last())[i]).root_id == p,
    ensures
        exists|i: int| 0 <= i < threads_spec(events).len() && (#[trigger] threads_spec(events)[i]).root_id == p,
        forall|i: int| 0 <= i < threads_spec(events).len() && (#[trigger] threads_spec(events)[i]).root_id == p
            ==> !threads_spec(events)[i].resolved,
{
    let f = fold_events(events.drop_last());
    let g = fold_events(events);
    lemma_fold_inv(events.drop_last());
    lemma_fold_inv(events);
    lemma_collect_from(f.order, f.map);
    lemma_collect_from(g.order, g.map);
    let i0 = choose|i: int| 0 <= i < threads_spec(events.drop_last()).len() && (#[trigger] threads_spec(events.drop_last())[i]).root_id == p;
    assert(f.map.contains_key(threads_spec(events.drop_last())[i0].root_id));
    assert(f.map.contains_key(p));
    assert(g.map.contains_key(p) && !g.map[p].resolved);
    assert(g.order == f.order);
    assert(g.order.contains(p));
}

/// Threads held by id, each id once.
pub open spec fn unique_ids(s: Seq<Thread>) -> bool {
    forall|i: int, j: int| 0 <= i < j < s.len() ==> s[i].root_id != s[j].root_id
}

pub open spec fn map_of(s: Seq<Thread>) -> Map<u128, ThreadV>
    decreases s.len(),
{
    if s.len() == 0 {
        Map::empty()
    } else {
        map_of(s.drop_last()).insert(s.last().root_id, thread_view(s.last()))
    }
}

pub proof fn lemma_map_of(s: Seq<Thread>)
    requires
        unique_ids(s),
    ensures
        forall|i: int| 0 <= i < s.len() ==> #[trigger] map_of(s).contains_key(s[i].root_id) && map_of(s)[s[i].root_id]
            == thread_view(s[i]),
        forall|k: u128| map_of(s).contains_key(k) ==> exists|i: int| 0 <= i < s.len() && #[trigger] s[i].root_id == k,
    decreases s.len(),
{
    if s.len() > 0 {
        let p = s.drop_last();
        assert(unique_ids(p));
        lemma_map_of(p);
        assert forall|i: int| 0 <= i < s.len() implies #[trigger] map_of(s).contains_key(s[i].root_id) && map_of(s)[s[i].root_id]
            == thread_view(s[i]) by {
            if i < s.len() - 1 {
                assert(p[i] == s[i]);
                assert(s[i].root_id != s.last().root_id);
            }
        }
        assert forall|k: u128| map_of(s).contains_key(k) implies exists|i: int| 0 <= i < s.len() && #[trigger] s[i].root_id == k by {
            if k != s.last().root_id {
                let i = choose|i: int| 0 <= i < p.len() && #[trigger] p[i].root_id == k;
                assert(s[i] == p[i]);
            } else {
                assert(s[s.len() - 1].root_id == k);
            }
        }
    }
}

pub proof fn lemma_map_of_update(s: Seq<Thread>, i: int, t: Thread)
    requires
        unique_ids(s),
        0 <= i < s.len(),
        t.root_id == s[i].root_id,
    ensures
        unique_ids(s.update(i, t)),
        map_of(s.update(i, t)) == map_of(s).insert(t.root_id, thread_view(t)),
{
    let u = s.update(i, t);
    assert(unique_ids(u));
    lemma_map_of(s);
    lemma_map_of(u);
    let a = map_of(u);
    let b = map_of(s).insert(t.root_id, thread_view(t));
    assert forall|k: u128| a.contains_key(k) <==> b.contains_key(k) by {
        if a.contains_key(k) {
            let j = choose|j: int| 0 <= j < u.len() && #[trigger] u[j].root_id == k;
            if j != i {
                assert(u[j] == s[j]);
            }
        }
        if map_of(s).contains_key(k) {
            let j = choose|j: int| 0 <= j < s.len() && #[trigger] s[j].root_id == k;
            if j != i {
                assert(u[j] == s[j]);
            } else {
                assert(u[i].root_id == k);
            }
        }
        if k == t.root_id {
            assert(u[i].root_id == k);
        }
    }
    assert forall|k: u128| a.contains_key(k) implies a[k] == b[k] by {
        let j = choose|j: int| 0 <= j < u.len() && #[trigger] u[j].root_id == k;
        if j != i {
            assert(u[j] == s[j]);
        }
    }
    assert(a =~= b);
}

pub proof fn lemma_map_of_remove(s: Seq<Thread>, i: int)
    requires
        unique_ids(s),
        0 <= i < s.len(),
    ensures
        unique_ids(s.remove(i)),
        map_of(s.remove(i)) == map_of(s).remove(s[i].root_id),
{
    let u = s.remove(i);
    assert forall|a: int, b: int| 0 <= a < b < u.len() implies u[a].root_id != u[b].root_id by {
        let a2 = if a < i { a } else { a + 1 };
        let b2 = if b < i { b } else { b + 1 };
        assert(u[a] == s[a2]);
        assert(u[b] == s[b2]);
    }
    lemma_map_of(s);
    lemma_map_of(u);
    let x = map_of(u);
    let y = map_of(s).remove(s[i].root_id);
    assert forall|k: u128| x.contains_key(k) <==> y.contains_key(k) by {
        if x.contains_key(k) {
            let j = choose|j: int| 0 <= j < u.len() && #[trigger] u[j].root_id == k;
            let j2 = if j < i { j } else { j + 1 };
            assert(u[j] == s[j2]);
            assert(s[j2].root_id != s[i].root_id);
        }
        if y.contains_key(k) {
            let j = choose|j: int| 0 <= j < s.len() && #[trigger] s[j].root_id == k;
            assert(j != i);
            if j < i {
                assert(u[j] == s[j]);
            } else {
                assert(u[j - 1] == s[j]);
            }
        }
    }
    assert forall|k: u128| x.contains_key(k) implies x[k] == y[k] by {
        let j = choose|j: int| 0 <= j < u.len() && #[trigger] u[j].root_id == k;
        let j2 = if j < i { j } else { j + 1 };
        assert(u[j] == s[j2]);
    }
    assert(x =~= y);
}

fn position_of(entries: &Vec<Thread>, id: u128) -> (r: Option<usize>)
    ensures
        match r {
            Some(i) => i < entries@.len() && entries@[i as int].root_id == id,
            None => forall|j: int| 0 <= j < entries@.len() ==> entries@[j].root_id != id,
        },
{
    for i in 0..entries.len()
        invariant
            forall|j: int| 0 <= j < i ==> entries@[j].root_id != id,
    {
        if entries[i].root_id == id {
            return Some(i);
        }
    }
    None
}

/// Where a thread with this id is, as far as the threads' map says.
proof fn lemma_found(s: Seq<Thread>, id: u128, found: Option<usize>)
    requires
        unique_ids(s),
        match found {
            Some(i) => i < s.len() && s[i as int].root_id == id,
            None => forall|j: int| 0 <= j < s.len() ==> s[j].root_id != id,
        },
    ensures
        map_of(s).contains_key(id) == found is Some,
        found matches Some(i) ==> map_of(s)[id] == thread_view(s[i as int]),
{
    lemma_map_of(s);
    if map_of(s).contains_key(id) && found is None {
        let j = choose|j: int| 0 <= j < s.len() && #[trigger] s[j].root_id == id;
    }
}

/// Groups the log into threads, in the order their root comment first came.
/// Replies, resolves, reopens and new anchors for a thread that was never
/// created are dropped: this reads for showing.
pub fn build_threads(events: &[Event]) -> (r: Vec<Thread>)
    ensures
        r@.map_values(|t: Thread| thread_view(t)) == threads_spec(events@),
{
    let mut order: Vec<u128> = Vec::new();
    let mut entries: Vec<Thread> = Vec::new();
    for i in 0..events.len()
        invariant
            unique_ids(entries@),
            order@ == fold_events(events@.take(i as int)).order,
            map_of(entries@) == fold_events(events@.take(i as int)).map,
    {
        proof {
            assert(events@.take(i + 1).drop_last() =~= events@.take(i as int));
            assert(events@.take(i + 1).last() == events@[i as int]);
        }
        let ghost before = entries@;
        match &events[i] {
            Event::Comment { id, parent: None, author, created_at, body, anchor: Some(a) } => {
                order.push(*id);
                let t = Thread {
                    root_id: *id,
                    author: copy_string(author),
                    created_at: copy_string(created_at),
                    body: copy_string(body),
                    anchor: copy_anchor(a),
                    resolved: false,
                    replies: Vec::new(),
                };
                let found = position_of(&entries, *id);
                proof {
                    lemma_found(before, *id, found);
                    assert(t.replies@.map_values(|r: Reply| reply_view(r)) =~= Seq::<(Seq<char>, Seq<char>, Seq<char>)>::empty());
                }
                match found {
                    Some(k) => {
                        let _old = entries.remove(k);
                        entries.insert(k, t);
                        proof {
                            assert(entries@ =~= before.update(k as int, t));
                            lemma_map_of_update(before, k as int, t);
                        }
                    },
                    None => {
                        entries.push(t);
                        proof {
                            assert(entries@.drop_last() =~= before);
                            assert forall|a: int, b: int| 0 <= a < b < entries@.len() implies entries@[a].root_id != entries@[b].root_id by {
                                if b == entries@.len() - 1 {
                                    assert(entries@[a] == before[a]);
                                } else {
                                    assert(entries@[a] == before[a]);
                                    assert(entries@[b] == before[b]);
                                }
                            }
                        }
                    },
                }
            },
            Event::Comment { parent: Some(p), author, created_at, body, .. } => {
                let found = position_of(&entries, *p);
                proof {
                    lemma_found(before, *p, found);
                }
                if let Some(k) = found {
                    let mut t = entries.remove(k);
                    let ghost tv = t;
                    t.replies.push(Reply { author: copy_string(author), created_at: copy_string(created_at), body: copy_string(body) });
                    proof {
                        assert(t.replies@.map_values(|r: Reply| reply_view(r)) =~= tv.replies@.map_values(|r: Reply| reply_view(r)).push(
                            (author@, created_at@, body@),
                        ));
                    }
                    entries.insert(k, t);
                    proof {
                        assert(entries@ =~= before.update(k as int, t));
                        lemma_map_of_update(before, k as int, t);
                    }
                }
            },
            Event::Resolve { parent, .. } => {
                let found = position_of(&entries, *parent);
                proof {
                    lemma_found(before, *parent, found);
                }
                if let Some(k) = found {
                    let mut t = entries.remove(k);
                    t.resolved = true;
                    entries.insert(k, t);
                    proof {
                        assert(entries@ =~= before.update(k as int, t));
                        lemma_map_of_update(before, k as int, t);
                    }
                }
            },
            Event::Reopen { parent, .. } => {
                let found = position_of(&entries, *parent);
                proof {
                    lemma_found(before, *parent, found);
                }
                if let Some(k) = found {
                    let mut t = entries.remove(k);
                    t.resolved = false;
                    entries.insert(k, t);
                    proof {
                        assert(entries@ =~= before.update(k as int, t));
                        lemma_map_of_update(before, k as int, t);
                    }
                }
            },
            Event::Reanchor { parent, anchor, .. } => {
                let found = position_of(&entries, *parent);
                proof {
                    lemma_found(before, *parent, found);
                }
                if let Some(k) = found {
                    let mut t = entries.remove(k);
                    t.anchor = copy_anchor(anchor);
                    entries.insert(k, t);
                    proof {
                        assert(entries@ =~= before.update(k as int, t));
                        lemma_map_of_update(before, k as int, t);
                    }
                }
            },
            _ => {},
        }
    }
    proof {
        assert(events@.take(events@.len() as int) =~= events@);
    }
    // Each root in the order it first came, taken out of the map once.
    let ghost all = threads_spec(events@);
    let mut out: Vec<Thread> = Vec::new();
    proof {
        assert(order@.skip(0) =~= order@);
    }
    for j in 0..order.len()
        invariant
            unique_ids(entries@),
            all == out@.map_values(|t: Thread| thread_view(t)) + collect(order@.skip(j as int), map_of(entries@)),
    {
        proof {
            assert(order@.skip(j as int).drop_first() =~= order@.skip(j + 1));
            assert(order@.skip(j as int)[0] == order@[j as int]);
        }
        let ghost before = entries@;
        let id = order[j];
        let found = position_of(&entries, id);
        proof {
            lemma_found(before, id, found);
        }
        if let Some(k) = found {
            let t = entries.remove(k);
            proof {
                lemma_map_of_remove(before, k as int);
                assert(entries@ == before.remove(k as int));
            }
            let ghost o = out@;
            out.push(t);
            proof {
                assert(out@.map_values(|t: Thread| thread_view(t)) =~= o.map_values(|t: Thread| thread_view(t)).push(thread_view(t)));
            }
        }
    }
    proof {
        assert(order@.skip(order@.len() as int).len() == 0);
        assert(all =~= out@.map_values(|t: Thread| thread_view(t)));
    }
    out
}

} // verus!
