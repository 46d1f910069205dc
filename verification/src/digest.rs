//! Content digests (`sha256:<hex>`), and file contents looked up by their
//! digest, with the steps recorded revisions took from one version of a file
//! to another.

use crate::text::{same_string, copy_string, push_str, strings_of};
use vstd::prelude::*;

verus! {

/// The lower-case hex of the SHA-256 digest of `bytes`.
pub uninterp spec fn sha256_hex(bytes: Seq<u8>) -> Seq<char>;

/// Whether `c` is a lower-case hex digit.
pub open spec fn is_lower_hex(c: char) -> bool {
    ('0' <= c && c <= '9') || ('a' <= c && c <= 'f')
}

/// `sha2::Sha256::digest` written with `{:x}`: the 32 bytes of the digest as
/// 64 lower-case hex digits (two per byte, as `generic_array`'s `LowerHex`
/// writes them).
#[verifier::external_body]
fn sha256_hex_of(bytes: &[u8]) -> (r: String)
    ensures
        r@ == sha256_hex(bytes@),
        r@.len() == 64,
        forall|i: int| 0 <= i < 64 ==> is_lower_hex(#[trigger] r@[i]),
{
    let hash = <sha2::Sha256 as sha2::Digest>::digest(bytes);
    format!("{hash:x}")
}

/// The digest of `bytes`, in the one form used wherever a digest is stored
/// or compared.
pub open spec fn digest_of(bytes: Seq<u8>) -> Seq<char> {
    "sha256:"@ + sha256_hex(bytes)
}

pub fn digest(bytes: &[u8]) -> (r: String)
    ensures
        r@ == digest_of(bytes@),
        r@.len() == 71,
        sha256_hex(bytes@).len() == 64,
        forall|i: int| 0 <= i < 64 ==> is_lower_hex(#[trigger] sha256_hex(bytes@)[i]),
{
    let hex = sha256_hex_of(bytes);
    let mut out = "sha256:".to_owned();
    push_str(&mut out, hex.as_str());
    proof {
        reveal_strlit("sha256:");
    }
    out
}

/// `std::str::from_utf8`: the text `bytes` encode, if they are valid UTF-8.
#[verifier::external_body]
pub fn utf8_text(bytes: &[u8]) -> (r: Option<&str>)
    ensures
        r is Some <==> vstd::utf8::valid_utf8(bytes@),
        r matches Some(s) ==> s@ == vstd::utf8::decode_utf8(bytes@),
{
    std::str::from_utf8(bytes).ok()
}

/// A walk along recorded steps: each version went on to the next.
pub open spec fn is_walk(steps: Seq<(Seq<char>, Seq<char>)>, w: Seq<Seq<char>>) -> bool {
    &&& w.len() >= 2
    &&& forall|k: int| 0 <= k < w.len() - 1 ==> #[trigger] is_step(steps, w[k], w[k + 1])
}

/// Whether some recorded step went from `a` to `b`.
pub open spec fn is_step(steps: Seq<(Seq<char>, Seq<char>)>, a: Seq<char>, b: Seq<char>) -> bool {
    exists|i: int| 0 <= i < steps.len() && #[trigger] steps[i] == (a, b)
}

/// Whether recorded steps took `older` on to `newer` (through any number of
/// them), and the two are not the same version.
pub open spec fn precedes_spec(steps: Seq<(Seq<char>, Seq<char>)>, older: Seq<char>, newer: Seq<char>) -> bool {
    older != newer && exists|w: Seq<Seq<char>>|
        is_walk(steps, w) && #[trigger] w[0] == older && w.last() == newer
}

/// File contents looked up by their digest, and the steps revisions took
/// from one version of a file to another (old -> new), in the order they
/// were recorded.
pub struct Blobs {
    data: Vec<(String, Vec<u8>)>,
    steps: Vec<(String, String)>,
}

pub open spec fn entries_view(v: Seq<(String, Vec<u8>)>) -> Seq<(Seq<char>, Seq<u8>)> {
    v.map_values(|e: (String, Vec<u8>)| (e.0@, e.1@))
}

pub open spec fn steps_view(v: Seq<(String, String)>) -> Seq<(Seq<char>, Seq<char>)> {
    v.map_values(|e: (String, String)| (e.0@, e.1@))
}

/// The bytes of the first entry with digest `d`.
pub open spec fn first_blob(entries: Seq<(Seq<char>, Seq<u8>)>, d: Seq<char>) -> Option<Seq<u8>>
    decreases entries.len(),
{
    if entries.len() == 0 {
        None
    } else if entries[0].0 == d {
        Some(entries[0].1)
    } else {
        first_blob(entries.drop_first(), d)
    }
}

pub proof fn lemma_first_blob_push(entries: Seq<(Seq<char>, Seq<u8>)>, e: (Seq<char>, Seq<u8>), d: Seq<char>)
    ensures
        first_blob(entries.push(e), d) == if first_blob(entries, d) is Some {
            first_blob(entries, d)
        } else if e.0 == d {
            Some(e.1)
        } else {
            None
        },
    decreases entries.len(),
{
    reveal_with_fuel(first_blob, 2);
    if entries.len() > 0 {
        assert(entries.push(e)[0] == entries[0]);
        assert(entries.push(e).drop_first() == entries.drop_first().push(e));
        lemma_first_blob_push(entries.drop_first(), e, d);
    } else {
        assert(entries.push(e)[0] == e);
        assert(entries.push(e).drop_first().len() == 0);
    }
}

pub proof fn lemma_first_blob_at(entries: Seq<(Seq<char>, Seq<u8>)>, d: Seq<char>, k: int)
    requires
        0 <= k < entries.len(),
        entries[k].0 == d,
        forall|j: int| 0 <= j < k ==> entries[j].0 != d,
    ensures
        first_blob(entries, d) == Some(entries[k].1),
    decreases k,
{
    if k > 0 {
        lemma_first_blob_at(entries.drop_first(), d, k - 1);
    }
}

pub proof fn lemma_first_blob_none(entries: Seq<(Seq<char>, Seq<u8>)>, d: Seq<char>)
    requires
        forall|j: int| 0 <= j < entries.len() ==> entries[j].0 != d,
    ensures
        first_blob(entries, d) is None,
    decreases entries.len(),
{
    if entries.len() > 0 {
        lemma_first_blob_none(entries.drop_first(), d);
    }
}

impl Blobs {
    /// The bytes held under digest `d` (the first given, if several were).
    pub closed spec fn blob(&self, d: Seq<char>) -> Option<Seq<u8>> {
        first_blob(entries_view(self.data@), d)
    }

    /// The steps recorded, in order.
    pub closed spec fn step_list(&self) -> Seq<(Seq<char>, Seq<char>)> {
        steps_view(self.steps@)
    }

    /// The text held under digest `d`: the bytes, if they are valid UTF-8.
    pub open spec fn text_spec(&self, d: Seq<char>) -> Option<Seq<char>> {
        match self.blob(d) {
            Some(b) => if vstd::utf8::valid_utf8(b) {
                Some(vstd::utf8::decode_utf8(b))
            } else {
                None
            },
            None => None,
        }
    }

    pub fn new() -> (r: Blobs)
        ensures
            forall|d: Seq<char>| r.blob(d) is None,
            r.step_list().len() == 0,
    {
        let r = Blobs { data: Vec::new(), steps: Vec::new() };
        assert forall|d: Seq<char>| r.blob(d) is None by {
            lemma_first_blob_none(entries_view(r.data@), d);
        }
        assert(r.step_list() =~= Seq::<(Seq<char>, Seq<char>)>::empty());
        r
    }

    /// Where the entry for `d` is, if any.
    fn find(&self, d: &str) -> (r: Option<usize>)
        ensures
            match r {
                Some(k) => k < self.data@.len() && self.blob(d@) == Some(self.data@[k as int].1@),
                None => self.blob(d@) is None,
            },
    {
        let ghost es = entries_view(self.data@);
        let key = d.to_owned();
        for k in 0..self.data.len()
            invariant
                es == entries_view(self.data@),
                key@ == d@,
                forall|j: int| 0 <= j < k ==> es[j].0 != d@,
        {
            if same_string(&self.data[k].0, &key) {
                proof {
                    lemma_first_blob_at(es, d@, k as int);
                }
                return Some(k);
            }
        }
        proof {
            lemma_first_blob_none(es, d@);
        }
        None
    }

    /// Holds `bytes` under digest `d`, unless something is held under it
    /// already.
    pub fn add_known(&mut self, d: String, bytes: Vec<u8>)
        ensures
            forall|x: Seq<char>| #[trigger] final(self).blob(x) == if x == d@ && old(self).blob(x) is None {
                Some(bytes@)
            } else {
                old(self).blob(x)
            },
            final(self).step_list() == old(self).step_list(),
    {
        if self.find(d.as_str()).is_some() {
            return;
        }
        let ghost before = entries_view(self.data@);
        let ghost dv = d@;
        let ghost bv = bytes@;
        self.data.push((d, bytes));
        proof {
            assert(entries_view(self.data@) =~= before.push((dv, bv)));
            assert forall|x: Seq<char>| #[trigger] self.blob(x) == if x == dv && old(self).blob(x) is None {
                Some(bv)
            } else {
                old(self).blob(x)
            } by {
                lemma_first_blob_push(before, (dv, bv), x);
            }
        }
    }

    /// Holds `bytes` under their digest.
    pub fn add(&mut self, bytes: Vec<u8>)
        ensures
            forall|x: Seq<char>| #[trigger] final(self).blob(x) == if x == digest_of(bytes@) && old(self).blob(x) is None {
                Some(bytes@)
            } else {
                old(self).blob(x)
            },
            final(self).step_list() == old(self).step_list(),
    {
        let d = digest(bytes.as_slice());
        self.add_known(d, bytes);
    }

    /// Records that a revision turned the file version `old` into `new`.
    pub fn link(&mut self, from: &str, to: &str)
        ensures
            final(self).step_list() == old(self).step_list().push((from@, to@)),
            forall|x: Seq<char>| #[trigger] final(self).blob(x) == old(self).blob(x),
    {
        let ghost before = steps_view(self.steps@);
        self.steps.push((from.to_owned(), to.to_owned()));
        assert(steps_view(self.steps@) =~= before.push((from@, to@)));
    }

    /// The text with this digest, if held and valid UTF-8.
    pub fn text(&self, d: &str) -> (r: Option<&str>)
        ensures
            match r {
                Some(s) => self.text_spec(d@) == Some(s@),
                None => self.text_spec(d@) is None,
            },
    {
        match self.find(d) {
            Some(k) => utf8_text(self.data[k].1.as_slice()),
            None => None,
        }
    }

    /// Whether recorded revisions took the version `older` on to `newer`
    /// (through any number of steps), i.e. `older` came first.
    pub fn precedes(&self, older: &str, newer: &str) -> (r: bool)
        ensures
            r == precedes_spec(self.step_list(), older@, newer@),
    {
        let ghost steps = self.step_list();
        let o = older.to_owned();
        let n = newer.to_owned();
        if same_string(&o, &n) {
            return false;
        }
        let len = self.steps.len();
        // `marked[i]`: step `i` starts at a version reached from `older`.
        let mut marked: Vec<bool> = Vec::new();
        for i in 0..len
            invariant
                marked@.len() == i,
                forall|j: int| 0 <= j < i ==> !marked@[j],
        {
            marked.push(false);
        }
        let ghost mut walks: Map<int, Seq<Seq<char>>> = Map::empty();
        let mut unmarked = len;
        proof {
            lemma_count_false_all(marked@);
        }
        let mut changed = true;
        while changed
            invariant
                steps == self.step_list(),
                len == steps.len(),
                marked@.len() == len,
                o@ == older@,
                n@ == newer@,
                older@ != newer@,
                unmarked <= len,
                unmarked == count_false(marked@),
                forall|j: int|
                    0 <= j < len && #[trigger] marked@[j] ==> walks.contains_key(j) && is_walk(
                        steps,
                        walks[j],
                    ) && walks[j][0] == older@ && walks[j].last() == steps[j].1,
                forall|j: int| 0 <= j < len && #[trigger] marked@[j] ==> steps[j].1 != newer@,
                !changed ==> closed(steps, older@, marked@),
            decreases unmarked + if changed {
                1int
            } else {
                0int
            },
        {
            changed = false;
            let ghost start = unmarked;
            let mut i: usize = 0;
            while i < len
                invariant
                    steps == self.step_list(),
                    len == steps.len(),
                    marked@.len() == len,
                    o@ == older@,
                    n@ == newer@,
                    older@ != newer@,
                    i <= len,
                    unmarked <= len,
                    unmarked == count_false(marked@),
                    forall|j: int|
                        0 <= j < len && #[trigger] marked@[j] ==> walks.contains_key(j) && is_walk(
                            steps,
                            walks[j],
                        ) && walks[j][0] == older@ && walks[j].last() == steps[j].1,
                    forall|j: int| 0 <= j < len && #[trigger] marked@[j] ==> steps[j].1 != newer@,
                    !changed ==> forall|j: int|
                        0 <= j < i && #[trigger] in_reach(steps, older@, marked@, steps[j].0) ==> marked@[j],
                    changed ==> unmarked < start,
                    !changed ==> unmarked == start,
                decreases len - i,
            {
                if !marked[i] && self.reached(&o, &marked, i) {
                    proof {
                        let s = steps[i as int].0;
                        let w = if s == older@ {
                            seq![older@, steps[i as int].1]
                        } else {
                            let j = choose|j: int| 0 <= j < len && marked@[j] && steps[j].1 == s;
                            walks[j].push(steps[i as int].1)
                        };
                        assert(is_walk(steps, w)) by {
                            assert forall|k: int| 0 <= k < w.len() - 1 implies #[trigger] is_step(
                                steps,
                                w[k],
                                w[k + 1],
                            ) by {
                                if k == w.len() - 2 {
                                    assert(steps[i as int] == (w[k], w[k + 1]));
                                } else {
                                    let j = choose|j: int| 0 <= j < len && marked@[j] && steps[j].1 == s;
                                    assert(w[k] == walks[j][k] && w[k + 1] == walks[j][k + 1]);
                                    assert(is_step(steps, walks[j][k], walks[j][k + 1]));
                                }
                            }
                        }
                        walks = walks.insert(i as int, w);
                    }
                    if same_string(&self.steps[i].1, &n) {
                        proof {
                            let w = walks[i as int];
                            assert(w[0] == older@ && w.last() == newer@);
                        }
                        return true;
                    }
                    proof {
                        lemma_count_false_set(marked@, i as int);
                    }
                    marked.set(i, true);
                    unmarked = unmarked - 1;
                    changed = true;
                }
                i += 1;
            }
        }
        proof {
            if precedes_spec(steps, older@, newer@) {
                let w = choose|w: Seq<Seq<char>>|
                    is_walk(steps, w) && #[trigger] w[0] == older@ && w.last() == newer@;
                lemma_walk_in_reach(steps, older@, marked@, w, w.len() - 1);
                assert(false);
            }
        }
        false
    }

    /// Whether step `i` starts at `older` or at where a marked step ends.
    fn reached(&self, older: &String, marked: &Vec<bool>, i: usize) -> (r: bool)
        requires
            i < self.steps@.len(),
            marked@.len() == self.steps@.len(),
        ensures
            r == in_reach(self.step_list(), older@, marked@, self.step_list()[i as int].0),
    {
        let ghost steps = self.step_list();
        let s = &self.steps[i].0;
        if same_string(s, older) {
            return true;
        }
        for j in 0..self.steps.len()
            invariant
                steps == self.step_list(),
                marked@.len() == steps.len(),
                s@ == steps[i as int].0,
                s@ != older@,
                forall|x: int| 0 <= x < j ==> !(marked@[x] && steps[x].1 == s@),
        {
            if marked[j] && same_string(&self.steps[j].1, s) {
                assert(steps[j as int].1 == s@);
                return true;
            }
        }
        false
    }

    /// Whether the text under `d` is held.
    pub open spec fn held(&self, d: Seq<char>) -> bool {
        self.text_spec(d) is Some
    }

    /// A walk through held versions, each linked to the next by a recorded
    /// step (in either direction).
    pub open spec fn is_held_walk(&self, w: Seq<Seq<char>>) -> bool {
        &&& w.len() >= 1
        &&& forall|k: int| 0 <= k < w.len() ==> self.held(#[trigger] w[k])
        &&& forall|k: int| 0 <= k < w.len() - 1 ==> #[trigger] linked(self.step_list(), w[k], w[k + 1])
    }

    /// Whether some held walk goes from `from` to `to`.
    pub open spec fn connected(&self, from: Seq<char>, to: Seq<char>) -> bool {
        exists|w: Seq<Seq<char>>| self.is_held_walk(w) && #[trigger] w[0] == from && w.last() == to
    }

    /// The texts of the versions of a walk.
    pub open spec fn texts_of(&self, w: Seq<Seq<char>>) -> Seq<Seq<char>> {
        w.map_values(|d: Seq<char>| self.text_spec(d).unwrap())
    }

    /// The texts along the shortest path of linked versions from `from` to
    /// `to`, both ends included, going only through versions whose text is
    /// held. With no such path but both ends held, just those two (a direct
    /// comparison).
    pub fn chain(&self, from: &str, to: &str) -> (r: Option<Vec<&str>>)
        ensures
            match r {
                None => !self.held(from@) || !self.held(to@),
                Some(p) => self.held(from@) && self.held(to@) && ((exists|w: Seq<Seq<char>>|
                    self.is_held_walk(w) && #[trigger] w[0] == from@ && w.last() == to@ && self.texts_of(w)
                        == strs_view(p@)) || (!self.connected(from@, to@) && strs_view(p@) == seq![
                    self.text_spec(from@).unwrap(),
                    self.text_spec(to@).unwrap(),
                ])),
            },
    {
        let ghost steps = self.step_list();
        let start = match self.text(from) {
            None => {
                return None;
            },
            Some(t) => t,
        };
        let goal = match self.text(to) {
            None => {
                return None;
            },
            Some(t) => t,
        };
        let len = self.steps.len();
        let target = to.to_owned();
        let mut seen: Vec<String> = Vec::new();
        seen.push(from.to_owned());
        let mut prev: Vec<usize> = Vec::new();
        prev.push(0);
        let ghost mut fwd: Seq<bool> = Seq::new(len as nat, |k: int| false);
        let ghost mut bwd: Seq<bool> = Seq::new(len as nat, |k: int| false);
        proof {
            lemma_count_false_all(fwd);
            lemma_count_false_all(bwd);
            assert(strings_of(seen@) == seq![from@]);
        }
        let mut head: usize = 0;
        while head < seen.len()
            invariant
                steps == self.step_list(),
                len == steps.len(),
                target@ == to@,
                self.held(from@),
                self.held(to@),
                start@ == self.text_spec(from@).unwrap(),
                goal@ == self.text_spec(to@).unwrap(),
                bfs_state(*self, from@, strings_of(seen@), prev@),
                head <= seen@.len(),
                bfs_closed(*self, strings_of(seen@), head as int),
                forall|k: int| 0 <= k < head ==> strings_of(seen@)[k] != to@,
                fwd.len() == len,
                bwd.len() == len,
                forall|i: int| 0 <= i < len && #[trigger] fwd[i] ==> strings_of(seen@).contains(steps[i].1),
                forall|i: int| 0 <= i < len && #[trigger] bwd[i] ==> strings_of(seen@).contains(steps[i].0),
                seen@.len() + count_false(fwd) + count_false(bwd) == 1 + 2 * len,
            decreases 2 * (count_false(fwd) + count_false(bwd)) + seen@.len() - head,
        {
            if same_string(&seen[head], &target) {
                return Some(self.walk_back(from, &seen, &prev, head));
            }
            let at = copy_string(&seen[head]);
            let ghost seen0 = strings_of(seen@);
            let mut i: usize = 0;
            while i < len
                invariant
                    steps == self.step_list(),
                    len == steps.len(),
                    target@ == to@,
                    self.held(from@),
                    self.held(to@),
                    start@ == self.text_spec(from@).unwrap(),
                    goal@ == self.text_spec(to@).unwrap(),
                    bfs_state(*self, from@, strings_of(seen@), prev@),
                    head < seen@.len(),
                    at@ == strings_of(seen@)[head as int],
                    seen0.is_prefix_of(strings_of(seen@)),
                    seen0.len() >= head + 1,
                    i <= len,
                    bfs_closed(*self, strings_of(seen@), head as int),
                    forall|j: int|
                        0 <= j < i ==> (#[trigger] steps[j].0 == at@ && self.held(steps[j].1)
                            ==> strings_of(seen@).contains(steps[j].1)) && (steps[j].1 == at@ && self.held(
                            steps[j].0,
                        ) ==> strings_of(seen@).contains(steps[j].0)),
                    forall|k: int| 0 <= k <= head ==> strings_of(seen@)[k] != to@,
                    fwd.len() == len,
                    bwd.len() == len,
                    forall|j: int| 0 <= j < len && #[trigger] fwd[j] ==> strings_of(seen@).contains(steps[j].1),
                    forall|j: int| 0 <= j < len && #[trigger] bwd[j] ==> strings_of(seen@).contains(steps[j].0),
                    seen@.len() + count_false(fwd) + count_false(bwd) == 1 + 2 * len,
                decreases len - i,
            {
                let ghost iter_start = strings_of(seen@);
                if same_string(&self.steps[i].0, &at) {
                    let ghost before = strings_of(seen@);
                    let pushed = self.visit(&mut seen, &mut prev, head, &self.steps[i].1);
                    proof {
                        lemma_closed_grow(*self, before, strings_of(seen@), head as int);
                        assert(seen@.len() == strings_of(seen@).len());
                        assert(linked(steps, at@, steps[i as int].1)) by {
                            assert(steps[i as int] == (at@, steps[i as int].1));
                        }
                        if pushed {
                            lemma_count_false_set(fwd, i as int);
                            fwd = fwd.update(i as int, true);
                            assert(strings_of(seen@)[before.len() as int] == steps[i as int].1);
                        }
                    }
                }
                if same_string(&self.steps[i].1, &at) {
                    let ghost before = strings_of(seen@);
                    let pushed = self.visit(&mut seen, &mut prev, head, &self.steps[i].0);
                    proof {
                        lemma_closed_grow(*self, before, strings_of(seen@), head as int);
                        assert(seen@.len() == strings_of(seen@).len());
                        assert(linked(steps, at@, steps[i as int].0)) by {
                            assert(steps[i as int] == (steps[i as int].0, at@));
                        }
                        if pushed {
                            lemma_count_false_set(bwd, i as int);
                            bwd = bwd.update(i as int, true);
                            assert(strings_of(seen@)[before.len() as int] == steps[i as int].0);
                        }
                    }
                }
                proof {
                    lemma_contains_grow(iter_start, strings_of(seen@));
                }
                i += 1;
            }
            head += 1;
        }
        proof {
            if self.connected(from@, to@) {
                let w = choose|w: Seq<Seq<char>>| self.is_held_walk(w) && #[trigger] w[0] == from@ && w.last() == to@;
                lemma_walk_in_seen(*self, strings_of(seen@), w, w.len() - 1);
                let k = choose|k: int| 0 <= k < strings_of(seen@).len() && strings_of(seen@)[k] == to@;
                assert(false);
            }
        }
        let mut direct: Vec<&str> = Vec::new();
        direct.push(start);
        direct.push(goal);
        assert(strs_view(direct@) =~= seq![self.text_spec(from@).unwrap(), self.text_spec(to@).unwrap()]);
        Some(direct)
    }

    /// Adds `cand` to the versions seen, reached from `seen[head]`, if its
    /// text is held and it wasn't seen yet.
    fn visit(&self, seen: &mut Vec<String>, prev: &mut Vec<usize>, head: usize, cand: &String) -> (pushed: bool)
        requires
            head < old(seen)@.len(),
            old(prev)@.len() == old(seen)@.len(),
        ensures
            pushed ==> strings_of(final(seen)@) == strings_of(old(seen)@).push(cand@) && final(prev)@ == old(prev)@.push(head)
                && self.held(cand@) && !strings_of(old(seen)@).contains(cand@),
            !pushed ==> final(seen)@ == old(seen)@ && final(prev)@ == old(prev)@ && (self.held(cand@)
                ==> strings_of(old(seen)@).contains(cand@)),
    {
        if self.text(cand.as_str()).is_none() {
            return false;
        }
        let ghost sv = strings_of(seen@);
        for k in 0..seen.len()
            invariant
                sv == strings_of(seen@),
                forall|j: int| 0 <= j < k ==> sv[j] != cand@,
        {
            if same_string(&seen[k], cand) {
                assert(sv[k as int] == cand@);
                return false;
            }
        }
        let c = copy_string(cand);
        proof {
            assert(strings_of(seen@.push(c)) =~= sv.push(cand@));
        }
        seen.push(c);
        prev.push(head);
        true
    }

    /// The texts along the versions from `from` to `seen[end]`, following
    /// each version back to the one it was reached from.
    fn walk_back(&self, from: &str, seen: &Vec<String>, prev: &Vec<usize>, end: usize) -> (r: Vec<&str>)
        requires
            bfs_state(*self, from@, strings_of(seen@), prev@),
            end < seen@.len(),
        ensures
            exists|w: Seq<Seq<char>>|
                self.is_held_walk(w) && #[trigger] w[0] == from@ && w.last() == strings_of(seen@)[end as int]
                    && self.texts_of(w) == strs_view(r@),
    {
        let ghost sv = strings_of(seen@);
        let mut rev: Vec<&str> = Vec::new();
        let ghost mut nodes: Seq<Seq<char>> = seq![];
        let mut node = end;
        loop
            invariant_except_break
                node < sv.len(),
                nodes.len() > 0 ==> linked(self.step_list(), sv[node as int], nodes.last()),
                nodes.len() == 0 ==> node == end,
            invariant
                bfs_state(*self, from@, sv, prev@),
                sv == strings_of(seen@),
                end < sv.len(),
                nodes.len() == rev@.len(),
                strs_view(rev@) == self.texts_of(nodes),
                forall|k: int| 0 <= k < nodes.len() ==> self.held(#[trigger] nodes[k]),
                forall|k: int|
                    0 <= k < nodes.len() - 1 ==> #[trigger] linked(self.step_list(), nodes[k + 1], nodes[k]),
                nodes.len() > 0 ==> nodes[0] == sv[end as int],
            ensures
                nodes.len() > 0,
                nodes.last() == from@,
            decreases node,
        {
            proof {
                assert(seen@[node as int]@ == sv[node as int]);
                assert(self.held(sv[node as int]));
            }
            let t = self.text(seen[node].as_str()).unwrap();
            proof {
                let before = nodes;
                nodes = nodes.push(sv[node as int]);
                assert(nodes.drop_last() == before);
                assert(strs_view(rev@.push(t)) =~= strs_view(rev@).push(t@));
                assert(self.texts_of(nodes) =~= self.texts_of(before).push(t@));
                assert forall|k: int| 0 <= k < nodes.len() - 1 implies #[trigger] linked(
                    self.step_list(),
                    nodes[k + 1],
                    nodes[k],
                ) by {
                    if k < before.len() - 1 {
                        assert(nodes[k] == before[k] && nodes[k + 1] == before[k + 1]);
                    } else {
                        assert(nodes[k] == before.last());
                    }
                }
            }
            rev.push(t);
            if node == 0 {
                break;
            }
            node = prev[node];
        }
        let mut out: Vec<&str> = Vec::new();
        let n = rev.len();
        for i in 0..n
            invariant
                n == rev@.len(),
                out@.len() == i,
                forall|m: int| 0 <= m < i ==> out@[m] == rev@[n - 1 - m],
        {
            out.push(rev[n - 1 - i]);
        }
        proof {
            let w = Seq::new(n as nat, |k: int| nodes[n - 1 - k]);
            assert forall|k: int| 0 <= k < w.len() - 1 implies #[trigger] linked(self.step_list(), w[k], w[k + 1]) by {
                let m = n - 2 - k;
                assert(linked(self.step_list(), nodes[m + 1], nodes[m]));
            }
            assert(self.texts_of(w) =~= strs_view(out@)) by {
                assert forall|k: int| 0 <= k < n implies self.texts_of(w)[k] == strs_view(out@)[k] by {
                    assert(strs_view(rev@)[n - 1 - k] == self.texts_of(nodes)[n - 1 - k]);
                }
            }
            assert(w[0] == from@);
            assert(self.is_held_walk(w));
        }
        out
    }


}

/// How many of `v` are `false`.
pub open spec fn count_false(v: Seq<bool>) -> nat
    decreases v.len(),
{
    if v.len() == 0 {
        0
    } else {
        count_false(v.drop_last()) + if v.last() {
            0nat
        } else {
            1nat
        }
    }
}

pub proof fn lemma_count_false_all(v: Seq<bool>)
    requires
        forall|j: int| 0 <= j < v.len() ==> !v[j],
    ensures
        count_false(v) == v.len(),
    decreases v.len(),
{
    if v.len() > 0 {
        lemma_count_false_all(v.drop_last());
    }
}

pub proof fn lemma_count_false_set(v: Seq<bool>, i: int)
    requires
        0 <= i < v.len(),
        !v[i],
    ensures
        count_false(v.update(i, true)) + 1 == count_false(v),
    decreases v.len(),
{
    if i < v.len() - 1 {
        assert(v.update(i, true).drop_last() == v.drop_last().update(i, true));
        lemma_count_false_set(v.drop_last(), i);
    } else {
        assert(v.update(i, true).drop_last() == v.drop_last());
    }
}

/// Whether `x` is `older` or where a marked step ends.
pub open spec fn in_reach(steps: Seq<(Seq<char>, Seq<char>)>, older: Seq<char>, marked: Seq<bool>, x: Seq<char>) -> bool {
    x == older || exists|j: int| 0 <= j < marked.len() && marked[j] && #[trigger] steps[j].1 == x
}

/// Every step that starts where `older` reaches is marked.
pub open spec fn closed(steps: Seq<(Seq<char>, Seq<char>)>, older: Seq<char>, marked: Seq<bool>) -> bool {
    forall|j: int|
        0 <= j < steps.len() && #[trigger] in_reach(steps, older, marked, steps[j].0) ==> marked[j]
}

pub proof fn lemma_walk_in_reach(
    steps: Seq<(Seq<char>, Seq<char>)>,
    older: Seq<char>,
    marked: Seq<bool>,
    w: Seq<Seq<char>>,
    k: int,
)
    requires
        marked.len() == steps.len(),
        closed(steps, older, marked),
        is_walk(steps, w),
        w[0] == older,
        0 <= k < w.len(),
    ensures
        in_reach(steps, older, marked, w[k]),
    decreases k,
{
    if k > 0 {
        lemma_walk_in_reach(steps, older, marked, w, k - 1);
        let k1 = k - 1;
        assert(is_step(steps, w[k1], w[k1 + 1]));
        assert(k1 + 1 == k);
        let i = choose|i: int| 0 <= i < steps.len() && #[trigger] steps[i] == (w[k - 1], w[k]);
        assert(in_reach(steps, older, marked, steps[i].0));
        assert(marked[i]);
        assert(steps[i].1 == w[k]);
    }
}

/// Whether `x` and `y` are linked by a recorded step, in either direction.
pub open spec fn linked(steps: Seq<(Seq<char>, Seq<char>)>, x: Seq<char>, y: Seq<char>) -> bool {
    exists|i: int| 0 <= i < steps.len() && (#[trigger] steps[i] == (x, y) || steps[i] == (y, x))
}

/// The views of a list of string slices.
pub open spec fn strs_view(v: Seq<&str>) -> Seq<Seq<char>> {
    v.map_values(|s: &str| s@)
}

/// The search's versions so far: `from` first, each held, and each other
/// one linked to an earlier one it was reached from.
pub open spec fn bfs_state(b: Blobs, from: Seq<char>, sv: Seq<Seq<char>>, prev: Seq<usize>) -> bool {
    &&& sv.len() >= 1
    &&& sv[0] == from
    &&& prev.len() == sv.len()
    &&& forall|k: int| 0 <= k < sv.len() ==> b.held(#[trigger] sv[k])
    &&& forall|k: int|
        1 <= k < sv.len() ==> (#[trigger] prev[k]) < k && linked(b.step_list(), sv[prev[k] as int], sv[k])
}

/// Every held version linked to one of the first `head` versions is among
/// the versions.
pub open spec fn bfs_closed(b: Blobs, sv: Seq<Seq<char>>, head: int) -> bool {
    forall|k: int, i: int|
        #![trigger sv[k], b.step_list()[i]]
        0 <= k < head && 0 <= i < b.step_list().len() ==> (b.step_list()[i].0 == sv[k] && b.held(
            b.step_list()[i].1,
        ) ==> sv.contains(b.step_list()[i].1)) && (b.step_list()[i].1 == sv[k] && b.held(b.step_list()[i].0)
            ==> sv.contains(b.step_list()[i].0))
}

/// Every version of a held walk from `sv[0]` is among versions closed under
/// links.
pub proof fn lemma_walk_in_seen(b: Blobs, sv: Seq<Seq<char>>, w: Seq<Seq<char>>, k: int)
    requires
        sv.len() >= 1,
        bfs_closed(b, sv, sv.len() as int),
        b.is_held_walk(w),
        w[0] == sv[0],
        0 <= k < w.len(),
    ensures
        sv.contains(w[k]),
    decreases k,
{
    if k == 0 {
        assert(sv[0] == w[0]);
    } else {
        lemma_walk_in_seen(b, sv, w, k - 1);
        let m = choose|m: int| 0 <= m < sv.len() && sv[m] == w[k - 1];
        let k1 = k - 1;
        assert(linked(b.step_list(), w[k1], w[k1 + 1]));
        let i = choose|i: int|
            0 <= i < b.step_list().len() && (#[trigger] b.step_list()[i] == (w[k1], w[k1 + 1]) || b.step_list()[i] == (
                w[k1 + 1],
                w[k1],
            ));
        assert(b.held(w[k]));
        assert(sv[m] == w[k1]);
        assert(b.step_list()[i] == b.step_list()[i]);
    }
}

/// Closure of the first `head` versions survives more versions being added.
pub proof fn lemma_closed_grow(b: Blobs, sv: Seq<Seq<char>>, sv2: Seq<Seq<char>>, head: int)
    requires
        bfs_closed(b, sv, head),
        sv.is_prefix_of(sv2),
        0 <= head <= sv.len(),
    ensures
        bfs_closed(b, sv2, head),
{
    assert forall|k: int, i: int|
        #![trigger sv2[k], b.step_list()[i]]
        0 <= k < head && 0 <= i < b.step_list().len() implies (b.step_list()[i].0 == sv2[k] && b.held(
            b.step_list()[i].1,
        ) ==> sv2.contains(b.step_list()[i].1)) && (b.step_list()[i].1 == sv2[k] && b.held(b.step_list()[i].0)
            ==> sv2.contains(b.step_list()[i].0)) by {
        assert(sv2[k] == sv[k]);
        if b.step_list()[i].0 == sv[k] && b.held(b.step_list()[i].1) {
            let m = choose|m: int| 0 <= m < sv.len() && sv[m] == b.step_list()[i].1;
            assert(sv2[m] == sv[m]);
        }
        if b.step_list()[i].1 == sv[k] && b.held(b.step_list()[i].0) {
            let m = choose|m: int| 0 <= m < sv.len() && sv[m] == b.step_list()[i].0;
            assert(sv2[m] == sv[m]);
        }
    }
}

/// What a list of versions holds, a longer one it starts holds too.
pub proof fn lemma_contains_grow(s1: Seq<Seq<char>>, s2: Seq<Seq<char>>)
    requires
        s1.is_prefix_of(s2),
    ensures
        forall|y: Seq<char>| #[trigger] s1.contains(y) ==> s2.contains(y),
{
    assert forall|y: Seq<char>| #[trigger] s1.contains(y) implies s2.contains(y) by {
        let m = choose|m: int| 0 <= m < s1.len() && s1[m] == y;
        assert(s2[m] == s1[m]);
    }
}

} // verus!
