//! The line diff between two versions of a file, fast and the same every time
//! on any machine.
//!
//! Small inputs go straight to Myers, which finds a shortest edit script. Big
//! inputs are done another way, whose cost doesn't depend on the edit:
//!
//! 1. common lines at the start and end are matched off;
//! 2. lines that occur exactly once on each side are candidates for pairing,
//!    and the longest run of them that keeps their order (the same order on
//!    both sides) is taken as fixed points;
//! 3. between two fixed points only a small stretch is left, which is diffed
//!    with Myers -- unless it is too big, in which case it is one replacement.

use crate::text::{first_index, lemma_first_index, lines_seq, slice_of, chars_of, same_chars};
use vstd::prelude::*;

verus! {

/// Inputs with at most this many lines in all go to Myers as they are.
pub const SMALL: usize = 10000;

/// A stretch between fixed points is diffed with Myers only up to this many
/// old lines times new lines.
pub const GAP_LIMIT: usize = 1000000;

/// One step of an edit script: equal runs, and replaced, deleted and inserted
/// blocks, with where each starts on both sides.
#[derive(Debug, Clone, Copy, PartialEq, Eq, Structural)]
pub enum DiffOp {
    Equal { old_index: usize, new_index: usize, len: usize },
    Delete { old_index: usize, old_len: usize, new_index: usize },
    Insert { old_index: usize, new_index: usize, new_len: usize },
    Replace { old_index: usize, old_len: usize, new_index: usize, new_len: usize },
}

/// How many old lines the step covers.
pub open spec fn old_len(op: DiffOp) -> int {
    match op {
        DiffOp::Equal { len, .. } => len as int,
        DiffOp::Delete { old_len, .. } => old_len as int,
        DiffOp::Insert { .. } => 0,
        DiffOp::Replace { old_len, .. } => old_len as int,
    }
}

/// How many new lines the step covers.
pub open spec fn new_len(op: DiffOp) -> int {
    match op {
        DiffOp::Equal { len, .. } => len as int,
        DiffOp::Delete { .. } => 0,
        DiffOp::Insert { new_len, .. } => new_len as int,
        DiffOp::Replace { new_len, .. } => new_len as int,
    }
}

pub open spec fn old_start(op: DiffOp) -> int {
    match op {
        DiffOp::Equal { old_index, .. } => old_index as int,
        DiffOp::Delete { old_index, .. } => old_index as int,
        DiffOp::Insert { old_index, .. } => old_index as int,
        DiffOp::Replace { old_index, .. } => old_index as int,
    }
}

pub open spec fn new_start(op: DiffOp) -> int {
    match op {
        DiffOp::Equal { new_index, .. } => new_index as int,
        DiffOp::Delete { new_index, .. } => new_index as int,
        DiffOp::Insert { new_index, .. } => new_index as int,
        DiffOp::Replace { new_index, .. } => new_index as int,
    }
}

impl DiffOp {
    pub fn old_index(&self) -> (r: usize)
        ensures
            r == old_start(*self),
    {
        match *self {
            DiffOp::Equal { old_index, .. } => old_index,
            DiffOp::Delete { old_index, .. } => old_index,
            DiffOp::Insert { old_index, .. } => old_index,
            DiffOp::Replace { old_index, .. } => old_index,
        }
    }

    pub fn new_index(&self) -> (r: usize)
        ensures
            r == new_start(*self),
    {
        match *self {
            DiffOp::Equal { new_index, .. } => new_index,
            DiffOp::Delete { new_index, .. } => new_index,
            DiffOp::Insert { new_index, .. } => new_index,
            DiffOp::Replace { new_index, .. } => new_index,
        }
    }

    pub fn old_len(&self) -> (r: usize)
        ensures
            r == old_len(*self),
    {
        match *self {
            DiffOp::Equal { len, .. } => len,
            DiffOp::Delete { old_len, .. } => old_len,
            DiffOp::Insert { .. } => 0,
            DiffOp::Replace { old_len, .. } => old_len,
        }
    }

    pub fn new_len(&self) -> (r: usize)
        ensures
            r == new_len(*self),
    {
        match *self {
            DiffOp::Equal { len, .. } => len,
            DiffOp::Delete { .. } => 0,
            DiffOp::Insert { new_len, .. } => new_len,
            DiffOp::Replace { new_len, .. } => new_len,
        }
    }
}

/// How many old lines the steps cover in all.
pub open spec fn old_total(ops: Seq<DiffOp>) -> int
    decreases ops.len(),
{
    if ops.len() == 0 {
        0
    } else {
        old_total(ops.drop_last()) + old_len(ops.last())
    }
}

/// How many new lines the steps cover in all.
pub open spec fn new_total(ops: Seq<DiffOp>) -> int
    decreases ops.len(),
{
    if ops.len() == 0 {
        0
    } else {
        new_total(ops.drop_last()) + new_len(ops.last())
    }
}

pub proof fn lemma_totals_nonneg(ops: Seq<DiffOp>)
    ensures
        old_total(ops) >= 0,
        new_total(ops) >= 0,
    decreases ops.len(),
{
    if ops.len() > 0 {
        lemma_totals_nonneg(ops.drop_last());
    }
}

/// The totals of a prefix are at most the totals of the whole.
pub proof fn lemma_totals_prefix(ops: Seq<DiffOp>, i: int)
    requires
        0 <= i <= ops.len(),
    ensures
        0 <= old_total(ops.take(i)) <= old_total(ops),
        0 <= new_total(ops.take(i)) <= new_total(ops),
    decreases ops.len(),
{
    lemma_totals_nonneg(ops.take(i));
    if i < ops.len() {
        assert(ops.drop_last().take(i) == ops.take(i));
        lemma_totals_prefix(ops.drop_last(), i);
    } else {
        assert(ops.take(i) == ops);
    }
}

/// The totals of two scripts one after the other.
pub proof fn lemma_totals_concat(s: Seq<DiffOp>, t: Seq<DiffOp>)
    ensures
        old_total(s + t) == old_total(s) + old_total(t),
        new_total(s + t) == new_total(s) + new_total(t),
    decreases t.len(),
{
    if t.len() == 0 {
        assert(s + t == s);
    } else {
        assert((s + t).drop_last() == s + t.drop_last());
        lemma_totals_concat(s, t.drop_last());
    }
}

/// The step moved to start at old line `o` and new line `n`.
pub open spec fn placed(op: DiffOp, o: int, n: int) -> DiffOp {
    match op {
        DiffOp::Equal { len, .. } => DiffOp::Equal { old_index: o as usize, new_index: n as usize, len },
        DiffOp::Delete { old_len, .. } => DiffOp::Delete {
            old_index: o as usize,
            old_len,
            new_index: n as usize,
        },
        DiffOp::Insert { new_len, .. } => DiffOp::Insert {
            old_index: o as usize,
            new_index: n as usize,
            new_len,
        },
        DiffOp::Replace { old_len, new_len, .. } => DiffOp::Replace {
            old_index: o as usize,
            old_len,
            new_index: n as usize,
            new_len,
        },
    }
}

/// The script with each step placed where the steps before it end.
pub open spec fn canonical_of(ops: Seq<DiffOp>) -> Seq<DiffOp> {
    Seq::new(ops.len(), |i: int| placed(ops[i], old_total(ops.take(i)), new_total(ops.take(i))))
}

/// Each step starts where the steps before it end, on both sides.
pub open spec fn is_canonical(ops: Seq<DiffOp>) -> bool {
    forall|i: int|
        0 <= i < ops.len() ==> old_start(#[trigger] ops[i]) == old_total(ops.take(i)) && new_start(
            ops[i],
        ) == new_total(ops.take(i))
}

/// The same script with every index recomputed from how many lines each side
/// has been through. A position taken from a step is then where the script
/// actually is at that point.
pub fn canonical(ops: Vec<DiffOp>) -> (r: Vec<DiffOp>)
    requires
        old_total(ops@) <= usize::MAX,
        new_total(ops@) <= usize::MAX,
    ensures
        r@ == canonical_of(ops@),
        r@.len() == ops@.len(),
        forall|i: int|
            0 <= i < ops@.len() ==> #[trigger] r@[i] == placed(
                ops@[i],
                old_total(ops@.take(i)),
                new_total(ops@.take(i)),
            ),
        is_canonical(r@),
        old_total(r@) == old_total(ops@),
        new_total(r@) == new_total(ops@),
{
    let mut out: Vec<DiffOp> = Vec::new();
    let mut o: usize = 0;
    let mut n: usize = 0;
    for i in 0..ops.len()
        invariant
            out@.len() == i,
            o == old_total(ops@.take(i as int)),
            n == new_total(ops@.take(i as int)),
            old_total(ops@) <= usize::MAX,
            new_total(ops@) <= usize::MAX,
            forall|k: int|
                0 <= k < i ==> #[trigger] out@[k] == placed(
                    ops@[k],
                    old_total(ops@.take(k)),
                    new_total(ops@.take(k)),
                ),
            old_total(out@) == o,
            new_total(out@) == n,
    {
        let op = ops[i];
        let fixed = match op {
            DiffOp::Equal { len, .. } => DiffOp::Equal { old_index: o, new_index: n, len },
            DiffOp::Delete { old_len, .. } => DiffOp::Delete { old_index: o, old_len, new_index: n },
            DiffOp::Insert { new_len, .. } => DiffOp::Insert { old_index: o, new_index: n, new_len },
            DiffOp::Replace { old_len, new_len, .. } => DiffOp::Replace {
                old_index: o,
                old_len,
                new_index: n,
                new_len,
            },
        };
        proof {
            assert(ops@.take(i + 1).drop_last() == ops@.take(i as int));
            lemma_totals_prefix(ops@, i + 1);
            assert(out@.push(fixed).drop_last() == out@);
        }
        out.push(fixed);
        o = o + fixed.old_len();
        n = n + fixed.new_len();
    }
    proof {
        assert(ops@.take(ops@.len() as int) == ops@);
        assert forall|i: int| 0 <= i < out@.len() implies old_start(#[trigger] out@[i]) == old_total(
            out@.take(i),
        ) && new_start(out@[i]) == new_total(out@.take(i)) by {
            lemma_canonical_prefix(ops@, out@, i);
            lemma_totals_prefix(ops@, i);
        }
        assert(out@ =~= canonical_of(ops@));
    }
    out
}

/// Steps placed at the prefix sums have the prefix sums of their lengths.
proof fn lemma_canonical_prefix(ops: Seq<DiffOp>, out: Seq<DiffOp>, i: int)
    requires
        out.len() == ops.len(),
        0 <= i <= ops.len(),
        forall|k: int|
            0 <= k < ops.len() ==> #[trigger] out[k] == placed(ops[k], old_total(ops.take(k)), new_total(ops.take(k))),
    ensures
        old_total(out.take(i)) == old_total(ops.take(i)),
        new_total(out.take(i)) == new_total(ops.take(i)),
    decreases i,
{
    if i > 0 {
        lemma_canonical_prefix(ops, out, i - 1);
        assert(out.take(i).drop_last() == out.take(i - 1));
        assert(ops.take(i).drop_last() == ops.take(i - 1));
    }
}

/// The one step two neighbours join into, if they do: runs of the same kind,
/// and a removal next to an insertion (a replacement). The joined step
/// starts where the first did.
pub open spec fn merged(last: DiffOp, op: DiffOp) -> Option<DiffOp> {
    match (last, op) {
        (DiffOp::Equal { old_index, new_index, len }, DiffOp::Equal { len: more, .. }) => Some(
            DiffOp::Equal { old_index, new_index, len: (len + more) as usize },
        ),
        (DiffOp::Delete { old_index, old_len, new_index }, DiffOp::Insert { new_len, .. }) => Some(
            DiffOp::Replace { old_index, old_len, new_index, new_len },
        ),
        (DiffOp::Insert { old_index, new_index, new_len }, DiffOp::Delete { old_len, .. }) => Some(
            DiffOp::Replace { old_index, old_len, new_index, new_len },
        ),
        (DiffOp::Delete { old_index, old_len, new_index }, DiffOp::Delete { old_len: more, .. }) => Some(
            DiffOp::Delete { old_index, old_len: (old_len + more) as usize, new_index },
        ),
        (DiffOp::Insert { old_index, new_index, new_len }, DiffOp::Insert { new_len: more, .. }) => Some(
            DiffOp::Insert { old_index, new_index, new_len: (new_len + more) as usize },
        ),
        (
            DiffOp::Replace { old_index, old_len, new_index, new_len },
            DiffOp::Replace { old_len: o, new_len: n, .. },
        ) => Some(
            DiffOp::Replace {
                old_index,
                old_len: (old_len + o) as usize,
                new_index,
                new_len: (new_len + n) as usize,
            },
        ),
        _ => None,
    }
}

/// The script with each step joined to the one before it where they join.
pub open spec fn normalized(ops: Seq<DiffOp>) -> Seq<DiffOp>
    decreases ops.len(),
{
    if ops.len() == 0 {
        seq![]
    } else {
        let out = normalized(ops.drop_last());
        let op = ops.last();
        if out.len() > 0 && merged(out.last(), op) is Some {
            out.drop_last().push(merged(out.last(), op).unwrap())
        } else {
            out.push(op)
        }
    }
}

/// Joining steps covers the same lines.
pub proof fn lemma_normalized_totals(ops: Seq<DiffOp>)
    requires
        old_total(ops) <= usize::MAX,
        new_total(ops) <= usize::MAX,
    ensures
        old_total(normalized(ops)) == old_total(ops),
        new_total(normalized(ops)) == new_total(ops),
    decreases ops.len(),
{
    if ops.len() > 0 {
        lemma_totals_nonneg(ops.drop_last());
        lemma_totals_nonneg(ops);
        lemma_normalized_totals(ops.drop_last());
        let out = normalized(ops.drop_last());
        let op = ops.last();
        if out.len() > 0 {
            lemma_totals_nonneg(out.drop_last());
            assert(out.drop_last().push(out.last()) == out);
            if let Some(m) = merged(out.last(), op) {
                assert(out.drop_last().push(m).drop_last() == out.drop_last());
                assert(old_len(m) == old_len(out.last()) + old_len(op));
                assert(new_len(m) == new_len(out.last()) + new_len(op));
            } else {
                assert(out.push(op).drop_last() == out);
            }
        } else {
            assert(out.push(op).drop_last() == out);
        }
    }
}

/// Joins neighbouring runs, and a removal next to an insertion into one
/// replacement.
pub fn normalize(ops: Vec<DiffOp>) -> (r: Vec<DiffOp>)
    requires
        old_total(ops@) <= usize::MAX,
        new_total(ops@) <= usize::MAX,
    ensures
        r@ == normalized(ops@),
        old_total(r@) == old_total(ops@),
        new_total(r@) == new_total(ops@),
{
    let mut out: Vec<DiffOp> = Vec::new();
    for i in 0..ops.len()
        invariant
            out@ == normalized(ops@.take(i as int)),
            old_total(ops@) <= usize::MAX,
            new_total(ops@) <= usize::MAX,
    {
        proof {
            assert(ops@.take(i + 1).drop_last() == ops@.take(i as int));
            lemma_totals_prefix(ops@, i + 1);
            lemma_normalized_totals(ops@.take(i as int));
            lemma_totals_nonneg(ops@.take(i as int));
            if out@.len() > 0 {
                lemma_totals_nonneg(out@.drop_last());
            }
        }
        let op = ops[i];
        let last = if out.len() > 0 {
            Some(out[out.len() - 1])
        } else {
            None
        };
        let m: Option<DiffOp> = match (last, op) {
            (Some(DiffOp::Equal { old_index, new_index, len }), DiffOp::Equal { len: more, .. }) => Some(
                DiffOp::Equal { old_index, new_index, len: len + more },
            ),
            (Some(DiffOp::Delete { old_index, old_len, new_index }), DiffOp::Insert { new_len, .. }) => Some(
                DiffOp::Replace { old_index, old_len, new_index, new_len },
            ),
            (Some(DiffOp::Insert { old_index, new_index, new_len }), DiffOp::Delete { old_len, .. }) => Some(
                DiffOp::Replace { old_index, old_len, new_index, new_len },
            ),
            (
                Some(DiffOp::Delete { old_index, old_len, new_index }),
                DiffOp::Delete { old_len: more, .. },
            ) => Some(DiffOp::Delete { old_index, old_len: old_len + more, new_index }),
            (
                Some(DiffOp::Insert { old_index, new_index, new_len }),
                DiffOp::Insert { new_len: more, .. },
            ) => Some(DiffOp::Insert { old_index, new_index, new_len: new_len + more }),
            (
                Some(DiffOp::Replace { old_index, old_len, new_index, new_len }),
                DiffOp::Replace { old_len: o, new_len: n, .. },
            ) => Some(DiffOp::Replace { old_index, old_len: old_len + o, new_index, new_len: new_len + n }),
            _ => None,
        };
        match m {
            Some(x) => {
                out.pop();
                out.push(x);
            },
            None => {
                out.push(op);
            },
        }
    }
    assert(ops@.take(ops@.len() as int) == ops@);
    proof {
        lemma_normalized_totals(ops@);
    }
    out
}

/// A run through `pairs`: positions in increasing order whose pairs'
/// second components increase too.
pub open spec fn is_run(pairs: Seq<(usize, usize)>, idx: Seq<int>) -> bool {
    &&& forall|k: int| 0 <= k < idx.len() ==> 0 <= #[trigger] idx[k] < pairs.len()
    &&& forall|k: int, m: int|
        #![trigger idx[k], idx[m]]
        0 <= k < m < idx.len() ==> idx[k] < idx[m] && pairs[idx[k]].1 < pairs[idx[m]].1
}

/// Every run ends at a position whose computed length is at least its own.
proof fn lemma_run_bound(pairs: Seq<(usize, usize)>, len_at: Seq<int>, idx: Seq<int>)
    requires
        is_run(pairs, idx),
        idx.len() >= 1,
        len_at.len() == pairs.len(),
        forall|e: int| 0 <= e < pairs.len() ==> #[trigger] len_at[e] >= 1,
        forall|e1: int, e2: int|
            #![trigger len_at[e1], len_at[e2]]
            0 <= e1 < e2 < pairs.len() && pairs[e1].1 < pairs[e2].1 ==> len_at[e1] < len_at[e2],
    ensures
        len_at[idx.last()] >= idx.len(),
    decreases idx.len(),
{
    let l = idx.len();
    assert(0 <= idx[l - 1] < pairs.len());
    if l > 1 {
        let shorter = idx.drop_last();
        assert forall|k: int, m: int| 0 <= k < m < shorter.len() implies shorter[k] < shorter[m]
            && pairs[shorter[k]].1 < pairs[shorter[m]].1 by {
            assert(shorter[k] == idx[k] && shorter[m] == idx[m]);
        }
        lemma_run_bound(pairs, len_at, shorter);
        assert(idx[l - 2] < idx[l - 1]);
        assert(len_at[idx[l - 2]] < len_at[idx[l - 1]]);
    }
}

/// The `(i, j)` pairs (in increasing `i`) forming a longest run in which `j`
/// also increases.
pub fn longest_increasing(pairs: &[(usize, usize)]) -> (r: Vec<(usize, usize)>)
    ensures
        exists|idx: Seq<int>|
            is_run(pairs@, idx) && idx.len() == r@.len() && forall|k: int|
                0 <= k < idx.len() ==> r@[k] == pairs@[#[trigger] idx[k]],
        forall|idx: Seq<int>| is_run(pairs@, idx) ==> idx.len() <= r@.len(),
{
    let ghost pj = |e: int| pairs@[e].1 as int;
    // tails[k]: the position ending the best run of length k + 1 found so far.
    let mut tails: Vec<usize> = Vec::new();
    let mut before: Vec<Option<usize>> = Vec::new();
    let ghost mut len_at: Seq<int> = seq![];
    for at in 0..pairs.len()
        invariant
            pj == (|e: int| pairs@[e].1 as int),
            before@.len() == at,
            len_at.len() == at,
            tails@.len() <= at,
            forall|k: int| 0 <= k < tails@.len() ==> #[trigger] tails@[k] < at,
            forall|k: int| 0 <= k < tails@.len() ==> len_at[#[trigger] tails@[k] as int] == k + 1,
            forall|k1: int, k2: int|
                #![trigger tails@[k1], tails@[k2]]
                0 <= k1 < k2 < tails@.len() ==> pj(tails@[k1] as int) < pj(tails@[k2] as int),
            forall|e: int|
                0 <= e < at ==> 1 <= #[trigger] len_at[e] <= tails@.len() && pj(
                    tails@[len_at[e] - 1] as int,
                ) <= pj(e),
            forall|e: int|
                0 <= e < at ==> (#[trigger] before@[e] is None <==> len_at[e] == 1) && (before@[e] matches Some(
                    b,
                ) ==> b < e && pj(b as int) < pj(e) && len_at[b as int] == len_at[e] - 1),
            forall|e1: int, e2: int|
                #![trigger len_at[e1], len_at[e2]]
                0 <= e1 < e2 < at && pj(e1) < pj(e2) ==> len_at[e1] < len_at[e2],
    {
        let j = pairs[at].1;
        let mut lo: usize = 0;
        let mut hi: usize = tails.len();
        while lo < hi
            invariant
                pj == (|e: int| pairs@[e].1 as int),
                j == pairs@[at as int].1,
                at < pairs@.len(),
                0 <= lo <= hi <= tails@.len(),
                forall|k: int| 0 <= k < tails@.len() ==> #[trigger] tails@[k] < at,
                forall|k1: int, k2: int|
                    #![trigger tails@[k1], tails@[k2]]
                    0 <= k1 < k2 < tails@.len() ==> pj(tails@[k1] as int) < pj(tails@[k2] as int),
                forall|m: int| 0 <= m < lo ==> pj(#[trigger] tails@[m] as int) < j,
                forall|m: int| hi <= m < tails@.len() ==> pj(#[trigger] tails@[m] as int) >= j,
            decreases hi - lo,
        {
            let mid = lo + (hi - lo) / 2;
            if pairs[tails[mid]].1 < j {
                assert forall|m: int| 0 <= m < mid + 1 implies pj(#[trigger] tails@[m] as int) < j by {
                    if m < mid {
                        assert(pj(tails@[m] as int) < pj(tails@[mid as int] as int));
                    }
                }
                lo = mid + 1;
            } else {
                assert forall|m: int| mid <= m < tails@.len() implies pj(#[trigger] tails@[m] as int) >= j by {
                    if m > mid {
                        assert(pj(tails@[mid as int] as int) < pj(tails@[m] as int));
                    }
                }
                hi = mid;
            }
        }
        let k = lo;
        let ghost old_tails = tails@;
        let ghost old_len_at = len_at;
        if k > 0 {
            before.push(Some(tails[k - 1]));
        } else {
            before.push(None);
        }
        proof {
            len_at = len_at.push(k + 1);
        }
        if k == tails.len() {
            tails.push(at);
        } else {
            tails.set(k, at);
        }
        proof {
            assert forall|e: int| 0 <= e < at + 1 implies 1 <= #[trigger] len_at[e] <= tails@.len() && pj(
                tails@[len_at[e] - 1] as int,
            ) <= pj(e) by {
                if e < at {
                    assert(old_len_at[e] == len_at[e]);
                    if len_at[e] - 1 == k {
                        assert(pj(old_tails[k as int] as int) <= pj(e));
                    }
                }
            }
            assert forall|e1: int, e2: int|
                #![trigger len_at[e1], len_at[e2]]
                0 <= e1 < e2 < at + 1 && pj(e1) < pj(e2) implies len_at[e1] < len_at[e2] by {
                if e2 == at {
                    assert(pj(old_tails[old_len_at[e1] - 1] as int) <= pj(e1));
                    if old_len_at[e1] - 1 >= k {
                        assert(pj(old_tails[old_len_at[e1] - 1] as int) >= j);
                    }
                } else {
                    assert(old_len_at[e1] == len_at[e1] && old_len_at[e2] == len_at[e2]);
                }
            }
            assert forall|k1: int, k2: int|
                #![trigger tails@[k1], tails@[k2]]
                0 <= k1 < k2 < tails@.len() implies pj(tails@[k1] as int) < pj(tails@[k2] as int) by {
                if k2 == k && k1 < k {
                    assert(pj(old_tails[k1] as int) < j);
                } else if k1 == k && k2 < old_tails.len() {
                    assert(pj(old_tails[k as int] as int) >= j);
                    assert(pj(old_tails[k as int] as int) < pj(old_tails[k2] as int));
                }
            }
            assert forall|e: int|
                0 <= e < at + 1 implies (#[trigger] before@[e] is None <==> len_at[e] == 1) && (
                before@[e] matches Some(b) ==> b < e && pj(b as int) < pj(e) && len_at[b as int]
                    == len_at[e] - 1) by {
                if e < at {
                    assert(old_len_at[e] == len_at[e]);
                    if let Some(b) = before@[e] {
                        assert(old_len_at[b as int] == len_at[b as int]);
                    }
                } else {
                    if k > 0 {
                        assert(pj(old_tails[k - 1] as int) < j);
                        assert(old_len_at[old_tails[k - 1] as int] == k);
                    }
                }
            }
        }
    }
    // Follow the best run back from its last position.
    let total = tails.len();
    let mut rev: Vec<(usize, usize)> = Vec::new();
    let ghost mut chosen: Seq<int> = seq![];
    let mut remaining: usize = total;
    let mut cur: usize = if total > 0 {
        tails[total - 1]
    } else {
        0
    };
    while remaining > 0
        invariant
            pj == (|e: int| pairs@[e].1 as int),
            before@.len() == pairs@.len(),
            len_at.len() == pairs@.len(),
            forall|e: int|
                0 <= e < pairs@.len() ==> (#[trigger] before@[e] is None <==> len_at[e] == 1) && (
                before@[e] matches Some(b) ==> b < e && pj(b as int) < pj(e) && len_at[b as int]
                    == len_at[e] - 1),
            remaining <= total,
            remaining > 0 ==> cur < pairs@.len() && len_at[cur as int] == remaining,
            rev@.len() + remaining == total,
            chosen.len() == rev@.len(),
            forall|m: int| 0 <= m < chosen.len() ==> 0 <= #[trigger] chosen[m] < pairs@.len() && rev@[m]
                == pairs@[chosen[m]],
            forall|m1: int, m2: int|
                #![trigger chosen[m1], chosen[m2]]
                0 <= m1 < m2 < chosen.len() ==> chosen[m2] < chosen[m1] && pj(chosen[m2]) < pj(chosen[m1]),
            remaining > 0 && chosen.len() > 0 ==> cur < chosen.last() && pj(cur as int) < pj(chosen.last()),
        decreases remaining,
    {
        rev.push(pairs[cur]);
        proof {
            chosen = chosen.push(cur as int);
        }
        if remaining > 1 {
            let b = before[cur];
            cur = b.unwrap();
        }
        remaining -= 1;
    }
    let n = rev.len();
    let ghost idx = Seq::new(n as nat, |m: int| chosen[n - 1 - m]);
    proof {
        assert(is_run(pairs@, idx)) by {
            assert forall|k: int, m: int| 0 <= k < m < idx.len() implies idx[k] < idx[m] && pairs@[idx[k]].1
                < pairs@[idx[m]].1 by {
                let m1: int = n - 1 - m;
                let m2: int = n - 1 - k;
                assert(0 <= m1 < m2 < chosen.len());
                assert(chosen[m2] < chosen[m1]);
                assert(pj(chosen[m2]) < pj(chosen[m1]));
            }
        }
        assert forall|r: Seq<int>| is_run(pairs@, r) implies r.len() <= n by {
            if r.len() >= 1 {
                lemma_run_bound(pairs@, len_at, r);
            }
        }
    }
    let mut out: Vec<(usize, usize)> = Vec::new();
    for i in 0..n
        invariant
            n == rev@.len(),
            out@.len() == i,
            idx.len() == n,
            forall|m: int| 0 <= m < n ==> rev@[n - 1 - m] == pairs@[#[trigger] idx[m]],
            forall|m: int| 0 <= m < i ==> out@[m] == rev@[n - 1 - m],
    {
        out.push(rev[n - 1 - i]);
    }
    assert(forall|k: int| 0 <= k < idx.len() ==> out@[k] == pairs@[#[trigger] idx[k]]);
    out
}

// ---- valid scripts -------------------------------------------------------------

/// The lines `a[o..o + len]` and `b[n..n + len]` are the same.
pub open spec fn same_run(a: Seq<Seq<char>>, b: Seq<Seq<char>>, o: int, n: int, len: int) -> bool {
    &&& 0 <= o && o + len <= a.len()
    &&& 0 <= n && n + len <= b.len()
    &&& a.subrange(o, o + len) == b.subrange(n, n + len)
}

/// A script turning `a` into `b`: its steps cover every line of each side,
/// in order, each once, and its equal runs really are equal.
pub open spec fn valid_script(ops: Seq<DiffOp>, a: Seq<Seq<char>>, b: Seq<Seq<char>>) -> bool {
    &&& old_total(ops) == a.len()
    &&& new_total(ops) == b.len()
    &&& forall|i: int|
        0 <= i < ops.len() ==> (#[trigger] ops[i] matches DiffOp::Equal { len, .. } ==> same_run(
            a,
            b,
            old_total(ops.take(i)),
            new_total(ops.take(i)),
            len as int,
        ))
}

pub proof fn lemma_valid_empty()
    ensures
        valid_script(seq![], seq![], seq![]),
{
}

/// A single step is a valid script for lines of its lengths (equal ones
/// for an equal run).
pub proof fn lemma_valid_single(op: DiffOp, a: Seq<Seq<char>>, b: Seq<Seq<char>>)
    requires
        old_len(op) == a.len(),
        new_len(op) == b.len(),
        op is Equal ==> a == b,
    ensures
        valid_script(seq![op], a, b),
{
    let s = seq![op];
    assert(s.drop_last() == Seq::<DiffOp>::empty());
    assert(s.take(0) == Seq::<DiffOp>::empty());
    assert(s.last() == op);
    assert(old_total(s.drop_last()) == 0);
    assert(new_total(s.drop_last()) == 0);
    assert(old_total(s) == old_len(op));
    assert(new_total(s) == new_len(op));
    assert(old_total(s.take(0)) == 0);
    assert(new_total(s.take(0)) == 0);
    if op is Equal {
        assert(a.subrange(0, a.len() as int) == a);
        assert(b.subrange(0, b.len() as int) == b);
    }
}

/// Two valid scripts one after the other are a valid script for the lines
/// one after the other.
pub proof fn lemma_valid_concat(
    s: Seq<DiffOp>,
    t: Seq<DiffOp>,
    a1: Seq<Seq<char>>,
    a2: Seq<Seq<char>>,
    b1: Seq<Seq<char>>,
    b2: Seq<Seq<char>>,
)
    requires
        valid_script(s, a1, b1),
        valid_script(t, a2, b2),
    ensures
        valid_script(s + t, a1 + a2, b1 + b2),
{
    lemma_totals_concat(s, t);
    let st = s + t;
    assert forall|i: int| 0 <= i < st.len() implies (#[trigger] st[i] matches DiffOp::Equal { len, .. }
        ==> same_run(a1 + a2, b1 + b2, old_total(st.take(i)), new_total(st.take(i)), len as int)) by {
        if let DiffOp::Equal { len, .. } = st[i] {
            if i < s.len() {
                assert(st.take(i) == s.take(i));
                assert(s[i] == st[i]);
                lemma_totals_prefix(s, i);
                let o = old_total(s.take(i));
                let n = new_total(s.take(i));
                assert((a1 + a2).subrange(o, o + len) == a1.subrange(o, o + len));
                assert((b1 + b2).subrange(n, n + len) == b1.subrange(n, n + len));
            } else {
                let k = i - s.len();
                assert(t[k] == st[i]);
                assert(st.take(i) == s + t.take(k));
                lemma_totals_concat(s, t.take(k));
                lemma_totals_prefix(t, k);
                let o = old_total(t.take(k));
                let n = new_total(t.take(k));
                assert((a1 + a2).subrange(a1.len() + o, a1.len() + o + len) == a2.subrange(o, o + len));
                assert((b1 + b2).subrange(b1.len() + n, b1.len() + n + len) == b2.subrange(n, n + len));
            }
        }
    }
}

/// Joining neighbouring steps keeps a script valid.
pub proof fn lemma_normalized_valid(ops: Seq<DiffOp>, a: Seq<Seq<char>>, b: Seq<Seq<char>>)
    requires
        valid_script(ops, a, b),
        old_total(ops) <= usize::MAX,
        new_total(ops) <= usize::MAX,
    ensures
        valid_script(normalized(ops), a, b),
    decreases ops.len(),
{
    if ops.len() > 0 {
        let k = ops.len() - 1;
        let op = ops.last();
        let init = ops.drop_last();
        lemma_totals_nonneg(init);
        lemma_totals_nonneg(ops);
        let a1 = a.take(old_total(init));
        let b1 = b.take(new_total(init));
        let a2 = a.skip(old_total(init));
        let b2 = b.skip(new_total(init));
        assert(valid_script(init, a1, b1)) by {
            assert forall|i: int| 0 <= i < init.len() implies (#[trigger] init[i] matches DiffOp::Equal {
                len,
                ..
            } ==> same_run(a1, b1, old_total(init.take(i)), new_total(init.take(i)), len as int)) by {
                assert(init[i] == ops[i]);
                assert(ops.take(i) == init.take(i));
                if let DiffOp::Equal { len, .. } = init[i] {
                    lemma_totals_prefix(init, i + 1);
                    assert(init.take(i + 1).drop_last() == init.take(i));
                    let o = old_total(init.take(i));
                    let n = new_total(init.take(i));
                    assert(a1.subrange(o, o + len) == a.subrange(o, o + len));
                    assert(b1.subrange(n, n + len) == b.subrange(n, n + len));
                }
            }
        }
        lemma_normalized_valid(init, a1, b1);
        lemma_normalized_totals(init);
        let out = normalized(init);
        assert(ops.take(k) == init);
        if op is Equal {
            assert(a2 == b2) by {
                assert(a.subrange(old_total(init), old_total(init) + old_len(op)) == a2);
                assert(b.subrange(new_total(init), new_total(init) + new_len(op)) == b2);
            }
        }
        assert(a1 + a2 == a);
        assert(b1 + b2 == b);
        if out.len() > 0 && merged(out.last(), op) is Some {
            let m = merged(out.last(), op).unwrap();
            let front = out.drop_last();
            let last = out.last();
            lemma_totals_nonneg(front);
            assert(front.push(last) == out);
            assert(front.push(m) == normalized(ops));
            // The last step of `out` covers the end of `a1` and `b1`.
            let fa = a1.take(old_total(front));
            let fb = b1.take(new_total(front));
            let la = a1.skip(old_total(front));
            let lb = b1.skip(new_total(front));
            assert(valid_script(front, fa, fb)) by {
                assert forall|i: int| 0 <= i < front.len() implies (#[trigger] front[i] matches DiffOp::Equal {
                    len,
                    ..
                } ==> same_run(fa, fb, old_total(front.take(i)), new_total(front.take(i)), len as int)) by {
                    assert(front[i] == out[i]);
                    assert(out.take(i) == front.take(i));
                    if let DiffOp::Equal { len, .. } = front[i] {
                        lemma_totals_prefix(front, i + 1);
                        assert(front.take(i + 1).drop_last() == front.take(i));
                        let o = old_total(front.take(i));
                        let n = new_total(front.take(i));
                        assert(fa.subrange(o, o + len) == a1.subrange(o, o + len));
                        assert(fb.subrange(n, n + len) == b1.subrange(n, n + len));
                    }
                }
            }
            if last is Equal {
                assert(out.take(out.len() - 1) == front);
                assert(la == lb) by {
                    assert(a1.subrange(old_total(front), old_total(front) + old_len(last)) == la);
                    assert(b1.subrange(new_total(front), new_total(front) + new_len(last)) == lb);
                }
            }
            lemma_valid_single(m, la + a2, lb + b2);
            lemma_valid_concat(front, seq![m], fa, la + a2, fb, lb + b2);
            assert(front + seq![m] == front.push(m));
            assert(fa + (la + a2) == a);
            assert(fb + (lb + b2) == b);
        } else {
            lemma_valid_single(op, a2, b2);
            lemma_valid_concat(out, seq![op], a1, a2, b1, b2);
            assert(out + seq![op] == out.push(op));
        }
    }
}

/// Canonical placement keeps a script valid.
pub proof fn lemma_canonical_valid(ops: Seq<DiffOp>, out: Seq<DiffOp>, a: Seq<Seq<char>>, b: Seq<Seq<char>>)
    requires
        valid_script(ops, a, b),
        out.len() == ops.len(),
        forall|i: int|
            0 <= i < ops.len() ==> #[trigger] out[i] == placed(ops[i], old_total(ops.take(i)), new_total(ops.take(i))),
        old_total(out) == old_total(ops),
        new_total(out) == new_total(ops),
    ensures
        valid_script(out, a, b),
{
    assert forall|i: int| 0 <= i < out.len() implies (#[trigger] out[i] matches DiffOp::Equal { len, .. }
        ==> same_run(a, b, old_total(out.take(i)), new_total(out.take(i)), len as int)) by {
        lemma_canonical_prefix(ops, out, i);
        assert(out[i] == placed(ops[i], old_total(ops.take(i)), new_total(ops.take(i))));
    }
}

// ---- the two ways of diffing ------------------------------------------------------

/// The lines of `s` as `split_inclusive('\n')` yields them: each with its
/// newline, and the last without one if the text doesn't end in one.
pub open spec fn inclusive_lines(s: Seq<char>) -> Seq<Seq<char>>
    decreases s.len(),
{
    if s.len() == 0 {
        seq![]
    } else {
        let k = first_index(s, '\n');
        proof {
            lemma_first_index(s, '\n');
        }
        if k < s.len() {
            seq![s.take(k + 1)] + inclusive_lines(s.skip(k + 1))
        } else {
            seq![s]
        }
    }
}

/// The lines of `text`, each with its newline.
pub fn split_inclusive(text: &[char]) -> (r: Vec<Vec<char>>)
    ensures
        lines_seq(r@) == inclusive_lines(text@),
{
    let mut out: Vec<Vec<char>> = Vec::new();
    let mut at: usize = 0;
    assert(text@.skip(0) == text@);
    assert(lines_seq(out@) =~= Seq::<Seq<char>>::empty());
    while at < text.len()
        invariant
            at <= text@.len(),
            inclusive_lines(text@) == lines_seq(out@) + inclusive_lines(text@.skip(at as int)),
        decreases text.len() - at,
    {
        let ghost rest = text@.skip(at as int);
        let mut k = at;
        while k < text.len() && text[k] != '\n'
            invariant
                at <= k <= text@.len(),
                forall|j: int| at <= j < k ==> text@[j] != '\n',
            decreases text.len() - k,
        {
            k += 1;
        }
        proof {
            assert forall|j: int| 0 <= j < k - at implies rest[j] != '\n' by {
                assert(rest[j] == text@[at + j]);
            }
            crate::text::lemma_first_index_is(rest, '\n', k - at);
        }
        let end = if k < text.len() {
            k + 1
        } else {
            k
        };
        let line = slice_of(text, at, end);
        proof {
            if k < text@.len() {
                assert(line@ == rest.take(k - at + 1));
                assert(rest.skip(k - at + 1) == text@.skip(end as int));
            } else {
                assert(line@ == rest);
                assert(text@.skip(end as int).len() == 0);
            }
            crate::text::lemma_lines_seq_push(out@, line);
        }
        out.push(line);
        at = end;
    }
    assert(text@.skip(at as int).len() == 0);
    assert(inclusive_lines(text@) =~= lines_seq(out@));
    out
}

/// What Myers' algorithm in the `similar` crate makes of two runs of lines.
pub uninterp spec fn myers_of(a: Seq<Seq<char>>, b: Seq<Seq<char>>) -> Seq<DiffOp>;

/// What `similar`'s line diff (`TextDiff::from_lines(old, new).ops()`) makes
/// of two texts.
pub uninterp spec fn text_myers_of(old: Seq<char>, new: Seq<char>) -> Seq<DiffOp>;

/// `similar::capture_diff_slices` with `Algorithm::Myers`, on `a[a0..a1]` and
/// `b[b0..b1]`: an edit script between the two runs (every line of each, in
/// order, once; equal runs equal), with the steps' own indices within the
/// runs.
#[verifier::external_body]
pub(crate) fn myers(a: &[Vec<char>], a0: usize, a1: usize, b: &[Vec<char>], b0: usize, b1: usize) -> (r: Vec<DiffOp>)
    requires
        a0 <= a1 <= a@.len(),
        b0 <= b1 <= b@.len(),
    ensures
        r@ == myers_of(lines_seq(a@).subrange(a0 as int, a1 as int), lines_seq(b@).subrange(b0 as int, b1 as int)),
        valid_script(r@, lines_seq(a@).subrange(a0 as int, a1 as int), lines_seq(b@).subrange(b0 as int, b1 as int)),
        forall|i: int|
            0 <= i < r@.len() ==> old_start(#[trigger] r@[i]) <= a1 - a0 && new_start(r@[i]) <= b1 - b0,
{
    let ops = similar::capture_diff_slices(similar::Algorithm::Myers, &a[a0..a1], &b[b0..b1]);
    ops.into_iter().map(|op| match op {
        similar::DiffOp::Equal { old_index, new_index, len } => DiffOp::Equal { old_index, new_index, len },
        similar::DiffOp::Delete { old_index, old_len, new_index } => DiffOp::Delete { old_index, old_len, new_index },
        similar::DiffOp::Insert { old_index, new_index, new_len } => DiffOp::Insert { old_index, new_index, new_len },
        similar::DiffOp::Replace { old_index, old_len, new_index, new_len } => DiffOp::Replace { old_index, old_len, new_index, new_len },
    }).collect()
}

/// `similar::TextDiff::from_lines(old, new).ops()`: Myers' line diff of two
/// texts (lines as `similar` splits them). Every line of each text is
/// covered once and no line is empty, so each side covers at most as many
/// lines as its text has characters.
#[verifier::external_body]
fn text_myers(old: &str, new: &str) -> (r: Vec<DiffOp>)
    ensures
        r@ == text_myers_of(old@, new@),
        old_total(r@) <= old@.len(),
        new_total(r@) <= new@.len(),
{
    let diff = similar::TextDiff::from_lines(old, new);
    diff.ops().iter().map(|op| match *op {
        similar::DiffOp::Equal { old_index, new_index, len } => DiffOp::Equal { old_index, new_index, len },
        similar::DiffOp::Delete { old_index, old_len, new_index } => DiffOp::Delete { old_index, old_len, new_index },
        similar::DiffOp::Insert { old_index, new_index, new_len } => DiffOp::Insert { old_index, new_index, new_len },
        similar::DiffOp::Replace { old_index, old_len, new_index, new_len } => DiffOp::Replace { old_index, old_len, new_index, new_len },
    }).collect()
}

/// The step moved by `old` lines and `new` lines.
pub open spec fn shifted_spec(op: DiffOp, old: int, new: int) -> DiffOp {
    placed(op, old_start(op) + old, new_start(op) + new)
}

fn shifted(op: DiffOp, old: usize, new: usize) -> (r: DiffOp)
    requires
        old_start(op) + old <= usize::MAX,
        new_start(op) + new <= usize::MAX,
    ensures
        r == shifted_spec(op, old as int, new as int),
{
    match op {
        DiffOp::Equal { old_index, new_index, len } => DiffOp::Equal {
            old_index: old + old_index,
            new_index: new + new_index,
            len,
        },
        DiffOp::Delete { old_index, old_len, new_index } => DiffOp::Delete {
            old_index: old + old_index,
            old_len,
            new_index: new + new_index,
        },
        DiffOp::Insert { old_index, new_index, new_len } => DiffOp::Insert {
            old_index: old + old_index,
            new_index: new + new_index,
            new_len,
        },
        DiffOp::Replace { old_index, old_len, new_index, new_len } => DiffOp::Replace {
            old_index: old + old_index,
            old_len,
            new_index: new + new_index,
            new_len,
        },
    }
}

/// Moving steps keeps a script valid (validity doesn't read their indices).
proof fn lemma_shifted_valid(ops: Seq<DiffOp>, out: Seq<DiffOp>, a: Seq<Seq<char>>, b: Seq<Seq<char>>, o: int, n: int)
    requires
        valid_script(ops, a, b),
        out.len() == ops.len(),
        forall|i: int| 0 <= i < ops.len() ==> #[trigger] out[i] == shifted_spec(ops[i], o, n),
    ensures
        valid_script(out, a, b),
{
    assert forall|k: int| 0 <= k <= ops.len() implies old_total(#[trigger] out.take(k)) == old_total(ops.take(k))
        && new_total(out.take(k)) == new_total(ops.take(k)) by {
        lemma_shifted_prefix(ops, out, o, n, k);
    }
    assert(out.take(out.len() as int) == out);
    assert(ops.take(ops.len() as int) == ops);
    assert forall|i: int| 0 <= i < out.len() implies (#[trigger] out[i] matches DiffOp::Equal { len, .. }
        ==> same_run(a, b, old_total(out.take(i)), new_total(out.take(i)), len as int)) by {
        assert(out[i] == shifted_spec(ops[i], o, n));
        assert(old_total(out.take(i)) == old_total(ops.take(i)));
    }
}

proof fn lemma_shifted_prefix(ops: Seq<DiffOp>, out: Seq<DiffOp>, o: int, n: int, k: int)
    requires
        out.len() == ops.len(),
        0 <= k <= ops.len(),
        forall|i: int| 0 <= i < ops.len() ==> #[trigger] out[i] == shifted_spec(ops[i], o, n),
    ensures
        old_total(out.take(k)) == old_total(ops.take(k)),
        new_total(out.take(k)) == new_total(ops.take(k)),
    decreases k,
{
    if k > 0 {
        lemma_shifted_prefix(ops, out, o, n, k - 1);
        assert(out.take(k).drop_last() == out.take(k - 1));
        assert(ops.take(k).drop_last() == ops.take(k - 1));
        assert(out[k - 1] == shifted_spec(ops[k - 1], o, n));
    }
}

/// The views of the lines `v[from..to]`.
pub open spec fn run_of(v: Seq<Vec<char>>, from: int, to: int) -> Seq<Seq<char>> {
    lines_seq(v).subrange(from, to)
}

/// `ops` followed by `more`.
fn append(ops: &mut Vec<DiffOp>, more: Vec<DiffOp>)
    ensures
        final(ops)@ == old(ops)@ + more@,
{
    let ghost base = ops@;
    for i in 0..more.len()
        invariant
            ops@ == base + more@.take(i as int),
    {
        assert(more@.take(i + 1) == more@.take(i as int).push(more@[i as int]));
        ops.push(more[i]);
    }
    assert(more@.take(more@.len() as int) == more@);
}

/// How many lines `a[a0..a1]` and `b[b0..b1]` have in common at the start.
fn common_head(a: &[Vec<char>], b: &[Vec<char>], a0: usize, a1: usize, b0: usize, b1: usize) -> (r: usize)
    requires
        a0 <= a1 <= a@.len(),
        b0 <= b1 <= b@.len(),
    ensures
        a0 + r <= a1,
        b0 + r <= b1,
        run_of(a@, a0 as int, a0 + r) == run_of(b@, b0 as int, b0 + r),
        a0 + r < a1 && b0 + r < b1 ==> a@[a0 + r]@ != b@[b0 + r]@,
{
    let ghost av = lines_seq(a@);
    let ghost bv = lines_seq(b@);
    let mut head: usize = 0;
    while a0 + head < a1 && b0 + head < b1 && same_chars(a[a0 + head].as_slice(), b[b0 + head].as_slice())
        invariant
            a0 + head <= a1 <= a@.len(),
            b0 + head <= b1 <= b@.len(),
            av == lines_seq(a@),
            bv == lines_seq(b@),
            av.subrange(a0 as int, a0 + head) == bv.subrange(b0 as int, b0 + head),
        decreases a1 - a0 - head,
    {
        assert(av.subrange(a0 as int, a0 + head + 1) == av.subrange(a0 as int, a0 + head).push(av[a0 + head]));
        assert(bv.subrange(b0 as int, b0 + head + 1) == bv.subrange(b0 as int, b0 + head).push(bv[b0 + head]));
        head += 1;
    }
    proof {
        if a0 + head < a1 && b0 + head < b1 {
            assert(av[a0 + head] == a@[a0 + head]@ && bv[b0 + head] == b@[b0 + head]@);
        }
    }
    head
}

/// How many lines `a[a0..a1]` and `b[b0..b1]` have in common at the end.
fn common_tail(a: &[Vec<char>], b: &[Vec<char>], a0: usize, a1: usize, b0: usize, b1: usize) -> (r: usize)
    requires
        a0 <= a1 <= a@.len(),
        b0 <= b1 <= b@.len(),
    ensures
        a0 + r <= a1,
        b0 + r <= b1,
        run_of(a@, a1 - r, a1 as int) == run_of(b@, b1 - r, b1 as int),
        a0 + r < a1 && b0 + r < b1 ==> a@[a1 - 1 - r]@ != b@[b1 - 1 - r]@,
{
    let ghost av = lines_seq(a@);
    let ghost bv = lines_seq(b@);
    let mut tail: usize = 0;
    while a0 + tail < a1 && b0 + tail < b1 && same_chars(a[a1 - 1 - tail].as_slice(), b[b1 - 1 - tail].as_slice())
        invariant
            a0 + tail <= a1 <= a@.len(),
            b0 + tail <= b1 <= b@.len(),
            av == lines_seq(a@),
            bv == lines_seq(b@),
            av.subrange(a1 - tail, a1 as int) == bv.subrange(b1 - tail, b1 as int),
        decreases a1 - a0 - tail,
    {
        assert(av.subrange(a1 - tail - 1, a1 as int) == seq![av[a1 - tail - 1]] + av.subrange(a1 - tail, a1 as int));
        assert(bv.subrange(b1 - tail - 1, b1 as int) == seq![bv[b1 - tail - 1]] + bv.subrange(b1 - tail, b1 as int));
        tail += 1;
    }
    proof {
        if a0 + tail < a1 && b0 + tail < b1 {
            assert(av[a1 - 1 - tail] == a@[a1 - 1 - tail]@ && bv[b1 - 1 - tail] == b@[b1 - 1 - tail]@);
        }
    }
    tail
}

/// The edits for a stretch with nothing in common at its edges: an
/// insertion, a removal, Myers' script, or -- when the stretch is too big --
/// one replacement.
fn gap_middle(
    a: &[Vec<char>],
    b: &[Vec<char>],
    s0: usize,
    e0: usize,
    t0: usize,
    e1: usize,
    shift_o: usize,
    shift_n: usize,
) -> (r: Vec<DiffOp>)
    requires
        s0 <= e0 <= a@.len(),
        t0 <= e1 <= b@.len(),
        shift_o + a@.len() <= usize::MAX,
        shift_n + b@.len() <= usize::MAX,
    ensures
        valid_script(r@, run_of(a@, s0 as int, e0 as int), run_of(b@, t0 as int, e1 as int)),
{
    let ghost ma = run_of(a@, s0 as int, e0 as int);
    let ghost mb = run_of(b@, t0 as int, e1 as int);
    let old_len = e0 - s0;
    let new_len = e1 - t0;
    let old_index = shift_o + s0;
    let new_index = shift_n + t0;
    let mut mid: Vec<DiffOp> = Vec::new();
    if old_len == 0 && new_len > 0 {
        mid.push(DiffOp::Insert { old_index, new_index, new_len });
        proof {
            lemma_valid_single(mid@[0], ma, mb);
            assert(mid@ == seq![mid@[0]]);
        }
    } else if new_len == 0 && old_len > 0 {
        mid.push(DiffOp::Delete { old_index, old_len, new_index });
        proof {
            lemma_valid_single(mid@[0], ma, mb);
            assert(mid@ == seq![mid@[0]]);
        }
    } else if old_len > 0 {
        let small = match old_len.checked_mul(new_len) {
            Some(p) => p <= GAP_LIMIT,
            None => false,
        };
        if small {
            let ops = myers(a, s0, e0, b, t0, e1);
            for i in 0..ops.len()
                invariant
                    mid@.len() == i,
                    forall|k: int|
                        0 <= k < i ==> #[trigger] mid@[k] == shifted_spec(ops@[k], old_index as int, new_index as int),
                    old_index == shift_o + s0,
                    new_index == shift_n + t0,
                    shift_o + a@.len() <= usize::MAX,
                    shift_n + b@.len() <= usize::MAX,
                    e0 <= a@.len(),
                    e1 <= b@.len(),
                    s0 <= e0,
                    t0 <= e1,
                    forall|k: int|
                        0 <= k < ops@.len() ==> old_start(#[trigger] ops@[k]) <= e0 - s0 && new_start(ops@[k])
                            <= e1 - t0,
            {
                let op = ops[i];
                mid.push(shifted(op, old_index, new_index));
            }
            proof {
                lemma_shifted_valid(ops@, mid@, ma, mb, old_index as int, new_index as int);
            }
        } else {
            mid.push(DiffOp::Replace { old_index, old_len, new_index, new_len });
            proof {
                lemma_valid_single(mid@[0], ma, mb);
                assert(mid@ == seq![mid@[0]]);
            }
        }
    } else {
        proof {
            lemma_valid_empty();
            assert(mid@ == Seq::<DiffOp>::empty());
            assert(ma == Seq::<Seq<char>>::empty());
            assert(mb == Seq::<Seq<char>>::empty());
        }
    }
    mid
}

/// The edits for `a[a0..a1]` -> `b[b0..b1]`, their indices moved by
/// `shift_o` and `shift_n`: equal lines at the edges, and the rest between
/// them.
fn gap(
    a: &[Vec<char>],
    b: &[Vec<char>],
    a0: usize,
    a1: usize,
    b0: usize,
    b1: usize,
    shift_o: usize,
    shift_n: usize,
) -> (r: Vec<DiffOp>)
    requires
        a0 <= a1 <= a@.len(),
        b0 <= b1 <= b@.len(),
        shift_o + a@.len() <= usize::MAX,
        shift_n + b@.len() <= usize::MAX,
    ensures
        valid_script(r@, run_of(a@, a0 as int, a1 as int), run_of(b@, b0 as int, b1 as int)),
{
    let ghost av = lines_seq(a@);
    let ghost bv = lines_seq(b@);
    let mut out: Vec<DiffOp> = Vec::new();
    let head = common_head(a, b, a0, a1, b0, b1);
    let s0 = a0 + head;
    let t0 = b0 + head;
    if head > 0 {
        out.push(DiffOp::Equal { old_index: shift_o + a0, new_index: shift_n + b0, len: head });
        proof {
            lemma_valid_single(out@[0], av.subrange(a0 as int, s0 as int), bv.subrange(b0 as int, t0 as int));
            assert(out@ == seq![out@[0]]);
        }
    } else {
        proof {
            lemma_valid_empty();
            assert(out@ == Seq::<DiffOp>::empty());
            assert(av.subrange(a0 as int, s0 as int) == Seq::<Seq<char>>::empty());
            assert(bv.subrange(b0 as int, t0 as int) == Seq::<Seq<char>>::empty());
        }
    }
    let tail = common_tail(a, b, s0, a1, t0, b1);
    let e0 = a1 - tail;
    let e1 = b1 - tail;
    let mid = gap_middle(a, b, s0, e0, t0, e1, shift_o, shift_n);
    proof {
        lemma_valid_concat(
            out@,
            mid@,
            av.subrange(a0 as int, s0 as int),
            av.subrange(s0 as int, e0 as int),
            bv.subrange(b0 as int, t0 as int),
            bv.subrange(t0 as int, e1 as int),
        );
        assert(av.subrange(a0 as int, s0 as int) + av.subrange(s0 as int, e0 as int) == av.subrange(a0 as int, e0 as int));
        assert(bv.subrange(b0 as int, t0 as int) + bv.subrange(t0 as int, e1 as int) == bv.subrange(b0 as int, e1 as int));
    }
    append(&mut out, mid);
    let ghost body = out@;
    if tail > 0 {
        let eq = DiffOp::Equal { old_index: shift_o + e0, new_index: shift_n + e1, len: tail };
        proof {
            lemma_valid_single(eq, av.subrange(e0 as int, a1 as int), bv.subrange(e1 as int, b1 as int));
            lemma_valid_concat(
                body,
                seq![eq],
                av.subrange(a0 as int, e0 as int),
                av.subrange(e0 as int, a1 as int),
                bv.subrange(b0 as int, e1 as int),
                bv.subrange(e1 as int, b1 as int),
            );
            assert(body + seq![eq] == body.push(eq));
        }
        out.push(eq);
    }
    proof {
        assert(av.subrange(a0 as int, e0 as int) + av.subrange(e0 as int, a1 as int) == av.subrange(a0 as int, a1 as int));
        assert(bv.subrange(b0 as int, e1 as int) + bv.subrange(e1 as int, b1 as int) == bv.subrange(b0 as int, b1 as int));
        if tail == 0 {
            assert(av.subrange(a0 as int, e0 as int) == av.subrange(a0 as int, a1 as int));
            assert(bv.subrange(b0 as int, e1 as int) == bv.subrange(b0 as int, b1 as int));
        }
    }
    out
}

/// How many of `s` are `line`.
pub open spec fn count_of(s: Seq<Seq<char>>, line: Seq<char>) -> nat
    decreases s.len(),
{
    if s.len() == 0 {
        0
    } else {
        count_of(s.drop_last(), line) + if s.last() == line {
            1nat
        } else {
            0nat
        }
    }
}

/// The place of the last of `s` that is `line` (-1 where none is).
pub open spec fn last_place(s: Seq<Seq<char>>, line: Seq<char>) -> int
    decreases s.len(),
{
    if s.len() == 0 {
        -1
    } else if s.last() == line {
        s.len() - 1
    } else {
        last_place(s.drop_last(), line)
    }
}

/// Of the first `n` lines of `sa`, those that are once in `sa` and once in
/// `sb`, each with its place in `sa` and in `sb`, in order.
pub open spec fn unique_upto(sa: Seq<Seq<char>>, sb: Seq<Seq<char>>, n: int) -> Seq<(int, int)>
    decreases n,
{
    if n <= 0 {
        seq![]
    } else {
        let rest = unique_upto(sa, sb, n - 1);
        let line = sa[n - 1];
        if count_of(sa, line) == 1 && count_of(sb, line) == 1 {
            rest.push((n - 1, last_place(sb, line)))
        } else {
            rest
        }
    }
}

pub open spec fn index_pairs(v: Seq<(usize, usize)>) -> Seq<(int, int)> {
    v.map_values(|p: (usize, usize)| (p.0 as int, p.1 as int))
}

proof fn lemma_last_place(s: Seq<Seq<char>>, line: Seq<char>)
    ensures
        -1 <= last_place(s, line) < s.len(),
        last_place(s, line) >= 0 ==> s[last_place(s, line)] == line,
        count_of(s, line) > 0 ==> last_place(s, line) >= 0,
    decreases s.len(),
{
    if s.len() > 0 {
        lemma_last_place(s.drop_last(), line);
    }
}

/// Lines that occur exactly once in `a[lo_a..hi_a]` and once in
/// `b[lo_b..hi_b]`, paired: their positions in the two runs, in order.
fn unique_pairs(a: &[Vec<char>], b: &[Vec<char>], lo_a: usize, hi_a: usize, lo_b: usize, hi_b: usize) -> (r: Vec<
    (usize, usize),
>)
    requires
        lo_a <= hi_a <= a@.len(),
        lo_b <= hi_b <= b@.len(),
    ensures
        forall|k: int|
            0 <= k < r@.len() ==> (#[trigger] r@[k]).0 < hi_a - lo_a && r@[k].1 < hi_b - lo_b && a@[lo_a
                + r@[k].0]@ == b@[lo_b + r@[k].1]@,
        forall|k1: int, k2: int| 0 <= k1 < k2 < r@.len() ==> (#[trigger] r@[k1]).0 < (#[trigger] r@[k2]).0,
        index_pairs(r@) == unique_upto(
            run_of(a@, lo_a as int, hi_a as int),
            run_of(b@, lo_b as int, hi_b as int),
            hi_a - lo_a,
        ),
{
    let ghost sa = run_of(a@, lo_a as int, hi_a as int);
    let ghost sb = run_of(b@, lo_b as int, hi_b as int);
    let mut pairs: Vec<(usize, usize)> = Vec::new();
    for i in 0..hi_a - lo_a
        invariant
            lo_a <= hi_a <= a@.len(),
            lo_b <= hi_b <= b@.len(),
            sa == run_of(a@, lo_a as int, hi_a as int),
            sb == run_of(b@, lo_b as int, hi_b as int),
            forall|k: int|
                0 <= k < pairs@.len() ==> (#[trigger] pairs@[k]).0 < i && pairs@[k].1 < hi_b - lo_b && a@[lo_a
                    + pairs@[k].0]@ == b@[lo_b + pairs@[k].1]@,
            forall|k1: int, k2: int| 0 <= k1 < k2 < pairs@.len() ==> (#[trigger] pairs@[k1]).0 < (#[trigger] pairs@[k2]).0,
            index_pairs(pairs@) == unique_upto(sa, sb, i as int),
    {
        let line = a[lo_a + i].as_slice();
        assert(sa[i as int] == line@);
        let mut in_a: usize = 0;
        for x in lo_a..hi_a
            invariant
                lo_a <= hi_a <= a@.len(),
                in_a <= x - lo_a,
                in_a == count_of(run_of(a@, lo_a as int, x as int), line@),
        {
            assert(run_of(a@, lo_a as int, x + 1).drop_last() == run_of(a@, lo_a as int, x as int));
            assert(run_of(a@, lo_a as int, x + 1).last() == a@[x as int]@);
            if same_chars(a[x].as_slice(), line) {
                in_a += 1;
            }
        }
        assert(run_of(a@, lo_a as int, hi_a as int) == sa);
        let ghost before = pairs@;
        if in_a == 1 {
            let mut in_b: usize = 0;
            let mut at: usize = 0;
            for y in lo_b..hi_b
                invariant
                    lo_b <= hi_b <= b@.len(),
                    in_b <= y - lo_b,
                    in_b > 0 ==> at < y - lo_b && b@[lo_b + at]@ == line@,
                    in_b == count_of(run_of(b@, lo_b as int, y as int), line@),
                    in_b > 0 ==> at == last_place(run_of(b@, lo_b as int, y as int), line@),
            {
                assert(run_of(b@, lo_b as int, y + 1).drop_last() == run_of(b@, lo_b as int, y as int));
                assert(run_of(b@, lo_b as int, y + 1).last() == b@[y as int]@);
                proof {
                    lemma_last_place(run_of(b@, lo_b as int, y as int), line@);
                }
                if same_chars(b[y].as_slice(), line) {
                    in_b += 1;
                    at = y - lo_b;
                }
            }
            assert(run_of(b@, lo_b as int, hi_b as int) == sb);
            if in_b == 1 {
                pairs.push((i, at));
                assert(index_pairs(pairs@) =~= index_pairs(before).push((i as int, at as int)));
            }
        }
        assert(index_pairs(pairs@) =~= unique_upto(sa, sb, i + 1));
    }
    pairs
}

/// The diff of big inputs: common ends, then lines unique on both sides
/// kept in a longest order both sides share, and the stretches between
/// them diffed on their own.
fn fixed_points(a: &[Vec<char>], b: &[Vec<char>]) -> (r: Vec<DiffOp>)
    ensures
        valid_script(r@, lines_seq(a@), lines_seq(b@)),
        is_canonical(r@),
{
    let ghost av = lines_seq(a@);
    let ghost bv = lines_seq(b@);
    let prefix = common_head(a, b, 0, a.len(), 0, b.len());
    let suffix = common_tail(a, b, prefix, a.len(), prefix, b.len());
    let hi_a = a.len() - suffix;
    let hi_b = b.len() - suffix;
    let mut ops: Vec<DiffOp> = Vec::new();
    if prefix > 0 {
        ops.push(DiffOp::Equal { old_index: 0, new_index: 0, len: prefix });
        proof {
            lemma_valid_single(ops@[0], av.take(prefix as int), bv.take(prefix as int));
            assert(ops@ == seq![ops@[0]]);
        }
    } else {
        proof {
            lemma_valid_empty();
            assert(ops@ == Seq::<DiffOp>::empty());
        }
    }
    assert(av.take(prefix as int) == av.subrange(0, prefix as int));
    assert(bv.take(prefix as int) == bv.subrange(0, prefix as int));
    let pairs = unique_pairs(a, b, prefix, hi_a, prefix, hi_b);
    let anchors = longest_increasing(pairs.as_slice());
    proof {
        let idx = choose|idx: Seq<int>|
            is_run(pairs@, idx) && idx.len() == anchors@.len() && forall|k: int|
                0 <= k < idx.len() ==> anchors@[k] == pairs@[#[trigger] idx[k]];
        assert forall|k: int| 0 <= k < anchors@.len() implies (#[trigger] anchors@[k]).0 < hi_a - prefix
            && anchors@[k].1 < hi_b - prefix && av[prefix + anchors@[k].0] == bv[prefix + anchors@[k].1] by {
            assert(0 <= idx[k] < pairs@.len());
            assert(anchors@[k] == pairs@[idx[k]]);
        }
        assert forall|k1: int, k2: int| 0 <= k1 < k2 < anchors@.len() implies (#[trigger] anchors@[k1]).0
            < (#[trigger] anchors@[k2]).0 && anchors@[k1].1 < anchors@[k2].1 by {
            assert(idx[k1] < idx[k2]);
            assert(anchors@[k1] == pairs@[idx[k1]]);
            assert(anchors@[k2] == pairs@[idx[k2]]);
        }
    }
    let mut oi: usize = 0;
    let mut nj: usize = 0;
    for k in 0..anchors.len()
        invariant
            prefix <= hi_a <= a@.len(),
            prefix <= hi_b <= b@.len(),
            av == lines_seq(a@),
            bv == lines_seq(b@),
            oi <= hi_a - prefix,
            nj <= hi_b - prefix,
            valid_script(ops@, av.take(prefix + oi), bv.take(prefix + nj)),
            forall|m: int|
                0 <= m < anchors@.len() ==> (#[trigger] anchors@[m]).0 < hi_a - prefix && anchors@[m].1 < hi_b
                    - prefix && av[prefix + anchors@[m].0] == bv[prefix + anchors@[m].1],
            forall|m1: int, m2: int|
                0 <= m1 < m2 < anchors@.len() ==> (#[trigger] anchors@[m1]).0 < (#[trigger] anchors@[m2]).0
                    && anchors@[m1].1 < anchors@[m2].1,
            forall|m: int| k <= m < anchors@.len() ==> (#[trigger] anchors@[m]).0 >= oi && anchors@[m].1 >= nj,
    {
        let (i, j) = anchors[k];
        let la = a.len();
        let lb = b.len();
        assert(la == a@.len() && lb == b@.len());
        let g = gap(a, b, prefix + oi, prefix + i, prefix + nj, prefix + j, 0, 0);
        let ghost before = ops@;
        proof {
            lemma_valid_concat(
                before,
                g@,
                av.take(prefix + oi),
                av.subrange(prefix + oi, prefix + i),
                bv.take(prefix + nj),
                bv.subrange(prefix + nj, prefix + j),
            );
            assert(av.take(prefix + oi) + av.subrange(prefix + oi, prefix + i) == av.take(prefix + i));
            assert(bv.take(prefix + nj) + bv.subrange(prefix + nj, prefix + j) == bv.take(prefix + j));
        }
        append(&mut ops, g);
        let ghost mid = ops@;
        let eq = DiffOp::Equal { old_index: prefix + i, new_index: prefix + j, len: 1 };
        proof {
            assert(av.subrange(prefix + i, prefix + i + 1) == seq![av[prefix + i]]);
            assert(bv.subrange(prefix + j, prefix + j + 1) == seq![bv[prefix + j]]);
            lemma_valid_single(eq, av.subrange(prefix + i, prefix + i + 1), bv.subrange(prefix + j, prefix + j + 1));
            lemma_valid_concat(
                mid,
                seq![eq],
                av.take(prefix + i),
                av.subrange(prefix + i, prefix + i + 1),
                bv.take(prefix + j),
                bv.subrange(prefix + j, prefix + j + 1),
            );
            assert(mid + seq![eq] == mid.push(eq));
            assert(av.take(prefix + i) + av.subrange(prefix + i, prefix + i + 1) == av.take(prefix + i + 1));
            assert(bv.take(prefix + j) + bv.subrange(prefix + j, prefix + j + 1) == bv.take(prefix + j + 1));
            assert forall|m: int| k + 1 <= m < anchors@.len() implies (#[trigger] anchors@[m]).0 >= i + 1
                && anchors@[m].1 >= j + 1 by {
                assert(anchors@[k as int].0 < anchors@[m].0);
            }
        }
        ops.push(eq);
        oi = i + 1;
        nj = j + 1;
    }
    let g = gap(a, b, prefix + oi, hi_a, prefix + nj, hi_b, 0, 0);
    let ghost before = ops@;
    proof {
        lemma_valid_concat(
            before,
            g@,
            av.take(prefix + oi),
            av.subrange(prefix + oi, hi_a as int),
            bv.take(prefix + nj),
            bv.subrange(prefix + nj, hi_b as int),
        );
        assert(av.take(prefix + oi) + av.subrange(prefix + oi, hi_a as int) == av.take(hi_a as int));
        assert(bv.take(prefix + nj) + bv.subrange(prefix + nj, hi_b as int) == bv.take(hi_b as int));
    }
    append(&mut ops, g);
    let ghost body = ops@;
    if suffix > 0 {
        let eq = DiffOp::Equal { old_index: hi_a, new_index: hi_b, len: suffix };
        proof {
            lemma_valid_single(eq, av.subrange(hi_a as int, av.len() as int), bv.subrange(hi_b as int, bv.len() as int));
            lemma_valid_concat(
                body,
                seq![eq],
                av.take(hi_a as int),
                av.subrange(hi_a as int, av.len() as int),
                bv.take(hi_b as int),
                bv.subrange(hi_b as int, bv.len() as int),
            );
            assert(body + seq![eq] == body.push(eq));
        }
        ops.push(eq);
    }
    proof {
        assert(av.take(hi_a as int) + av.subrange(hi_a as int, av.len() as int) == av);
        assert(bv.take(hi_b as int) + bv.subrange(hi_b as int, bv.len() as int) == bv);
        if suffix == 0 {
            assert(av.take(hi_a as int) == av);
            assert(bv.take(hi_b as int) == bv);
        }
    }
    proof {
        lemma_normalized_valid(ops@, av, bv);
    }
    let n = normalize(ops);
    let r = canonical(n);
    proof {
        lemma_canonical_valid(n@, r@, av, bv);
    }
    r
}

/// Whether a line diff of texts with these lines takes Myers' way.
pub open spec fn is_small(a: Seq<Seq<char>>, b: Seq<Seq<char>>) -> bool {
    a.len() + b.len() <= SMALL
}

/// The edit script turning `old` into `new`, line by line (each line with
/// its newline). Small inputs are Myers' script, placed; big ones are a
/// valid script found through fixed points. Either way every step starts
/// where the ones before it end.
pub fn line_diff(old: &str, new: &str) -> (r: Vec<DiffOp>)
    ensures
        is_small(inclusive_lines(old@), inclusive_lines(new@)) ==> r@ == canonical_of(text_myers_of(old@, new@)),
        !is_small(inclusive_lines(old@), inclusive_lines(new@)) ==> valid_script(
            r@,
            inclusive_lines(old@),
            inclusive_lines(new@),
        ),
        is_canonical(r@),
{
    let oc = chars_of(old);
    let nc = chars_of(new);
    let a = split_inclusive(oc.as_slice());
    let b = split_inclusive(nc.as_slice());
    proof {
        lemma_inclusive_len(old@);
        lemma_inclusive_len(new@);
        assert(oc@.len() == old@.len() && nc@.len() == new@.len());
    }
    let ol = oc.len();
    let nl = nc.len();
    assert(ol == old@.len() && nl == new@.len());
    if a.len() <= SMALL && b.len() <= SMALL - a.len() {
        let ops = text_myers(old, new);
        return canonical(ops);
    }
    fixed_points(a.as_slice(), b.as_slice())
}

/// A text has at most as many lines as characters.
pub proof fn lemma_inclusive_len(s: Seq<char>)
    ensures
        inclusive_lines(s).len() <= s.len(),
    decreases s.len(),
{
    if s.len() > 0 {
        lemma_first_index(s, '\n');
        let k = first_index(s, '\n');
        if k < s.len() {
            lemma_inclusive_len(s.skip(k + 1));
        }
    }
}

} // verus!
