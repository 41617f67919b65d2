//! The mathematical model of the tree: slot sequences, the consistency
//! invariant, and the meaning of single and batched leaf updates.

use vstd::prelude::*;

use crate::hash::{combine_of, HashValue};

verus! {

/// `n` is a power of two.
pub open spec fn is_pow2(n: int) -> bool
    decreases n,
{
    if n <= 0 {
        false
    } else if n == 1 {
        true
    } else {
        n % 2 == 0 && is_pow2(n / 2)
    }
}

/// The indices are strictly ascending: no duplicates, no descents.
pub open spec fn strictly_increasing(s: Seq<int>) -> bool {
    forall|a: int, b: int| 0 <= a < b < s.len() ==> s[a] < s[b]
}

/// The even (left) member of the sibling pair that node `i` belongs to.
pub open spec fn pair_left(i: int) -> int {
    2 * (i / 2)
}

/// The sibling of node `i`: the index differing only in the low bit.
pub open spec fn sibling(i: int) -> int {
    if i % 2 == 0 {
        i + 1
    } else {
        i - 1
    }
}

/// Every internal node holds the combination of its two children.
pub open spec fn consistent(t: Seq<Seq<u8>>) -> bool {
    forall|i: int| 1 <= i < t.len() / 2 ==> #[trigger] t[i] == combine_of(t[2 * i], t[2 * i + 1])
}

/// Recompute the ancestors of node `i` bottom-up from the current slot
/// values: at each step the parent slot receives the combination of the
/// sibling pair that `i` belongs to, and the walk moves to the parent.
pub open spec fn propagate(t: Seq<Seq<u8>>, i: int) -> Seq<Seq<u8>>
    decreases i,
{
    if i <= 1 {
        t
    } else {
        propagate(t.update(i / 2, combine_of(t[pair_left(i)], t[pair_left(i) + 1])), i / 2)
    }
}

/// One leaf update without the equality fast path: write slot `i`, then
/// recompute its ancestors.
pub open spec fn updated(t: Seq<Seq<u8>>, i: int, v: Seq<u8>) -> Seq<Seq<u8>> {
    propagate(t.update(i, v), i)
}

/// The full meaning of a single-leaf update: writing the value already
/// stored leaves the tree untouched.
pub open spec fn update_model(t: Seq<Seq<u8>>, i: int, v: Seq<u8>) -> Seq<Seq<u8>> {
    if t[i] == v {
        t
    } else {
        updated(t, i, v)
    }
}

/// `j` is node `x` itself or one of its ancestors.
pub open spec fn is_anc(j: int, x: int) -> bool
    decreases x,
{
    if j == x {
        true
    } else if x > j && x >= 2 {
        is_anc(j, x / 2)
    } else {
        false
    }
}

/// Some slot listed in `reals` lies in the subtree rooted at `j`.
pub open spec fn touches(reals: Seq<int>, j: int) -> bool {
    exists|m: int| 0 <= m < reals.len() && is_anc(j, #[trigger] reals[m])
}

/// The value of slot `j` once every ancestor of a slot in `reals` has been
/// recomputed bottom-up; slots outside those paths keep their value in `t`.
pub open spec fn rebuilt(t: Seq<Seq<u8>>, reals: Seq<int>, j: int) -> Seq<u8>
    decreases t.len() - j,
{
    if 1 <= j && 2 * j + 1 < t.len() && touches(reals, j) {
        combine_of(rebuilt(t, reals, 2 * j), rebuilt(t, reals, 2 * j + 1))
    } else {
        t[j]
    }
}

/// The whole tree after the recomputation pass of a batched update.
pub open spec fn rebuilt_all(t: Seq<Seq<u8>>, reals: Seq<int>) -> Seq<Seq<u8>> {
    Seq::new(t.len(), |j: int| rebuilt(t, reals, j))
}

/// Write `vals[k]` into slot `reals[k]` for every `k`, in order.
pub open spec fn written(t: Seq<Seq<u8>>, reals: Seq<int>, vals: Seq<Seq<u8>>) -> Seq<Seq<u8>>
    decreases reals.len(),
{
    if reals.len() == 0 {
        t
    } else {
        written(t, reals.drop_last(), vals.drop_last()).update(reals.last(), vals.last())
    }
}

/// The result of a batched update: all leaves written first, then every
/// touched ancestor recomputed.
pub open spec fn bulk_result(t: Seq<Seq<u8>>, reals: Seq<int>, vals: Seq<Seq<u8>>) -> Seq<
    Seq<u8>,
> {
    rebuilt_all(written(t, reals, vals), reals)
}

/// The given updates applied one after the other, in order, each writing
/// its leaf and recomputing the ancestors.
pub open spec fn folded(t: Seq<Seq<u8>>, reals: Seq<int>, vals: Seq<Seq<u8>>) -> Seq<Seq<u8>>
    decreases reals.len(),
{
    if reals.len() == 0 {
        t
    } else {
        updated(folded(t, reals.drop_last(), vals.drop_last()), reals.last(), vals.last())
    }
}

/// The given updates applied one after the other through the single-leaf
/// update operation, equality fast path included.
pub open spec fn folded_model(t: Seq<Seq<u8>>, reals: Seq<int>, vals: Seq<Seq<u8>>) -> Seq<
    Seq<u8>,
>
    decreases reals.len(),
{
    if reals.len() == 0 {
        t
    } else {
        update_model(
            folded_model(t, reals.drop_last(), vals.drop_last()),
            reals.last(),
            vals.last(),
        )
    }
}

/// The recursive left-to-right reduction of a row of hashes: pair up the
/// two halves and combine their reductions.
pub open spec fn reduce(row: Seq<Seq<u8>>) -> Seq<u8>
    decreases row.len(),
{
    if row.len() <= 1 {
        row[0]
    } else {
        combine_of(
            reduce(row.take(row.len() as int / 2)),
            reduce(row.skip(row.len() as int / 2)),
        )
    }
}

/// Caller-facing leaf positions mapped to their internal slot indices.
pub open spec fn shifted(indices: Seq<usize>, off: int) -> Seq<int> {
    Seq::new(indices.len(), |m: int| indices[m] as int + off)
}

/// The byte sequences of a row of hash values.
pub open spec fn views_of(hashes: Seq<HashValue>) -> Seq<Seq<u8>> {
    hashes.map_values(|h: HashValue| h@)
}

/// Slot index `j` occurs in `s`.
pub open spec fn has_index(s: Seq<usize>, j: int) -> bool {
    exists|m: int| 0 <= m < s.len() && #[trigger] s[m] as int == j
}

/// Some one of the first `k` entries of `s` has `j` as its parent.
pub open spec fn has_parent_upto(s: Seq<usize>, k: int, j: int) -> bool {
    exists|m: int| 0 <= m < k && (#[trigger] s[m] as int) / 2 == j
}

/// A sequence each of whose entries is below its successor ascends as a
/// whole.
pub proof fn lemma_adjacent_increasing(s: Seq<int>)
    requires
        forall|m: int| 0 <= m < s.len() - 1 ==> #[trigger] s[m] < s[m + 1],
    ensures
        strictly_increasing(s),
{
    assert forall|a: int, b: int| 0 <= a < b < s.len() implies s[a] < s[b] by {
        lemma_adjacent_step(s, a, b);
    }
}

proof fn lemma_adjacent_step(s: Seq<int>, a: int, b: int)
    requires
        forall|m: int| 0 <= m < s.len() - 1 ==> #[trigger] s[m] < s[m + 1],
        0 <= a < b < s.len(),
    ensures
        s[a] < s[b],
    decreases b - a,
{
    if b > a + 1 {
        lemma_adjacent_step(s, a, b - 1);
    }
}

/// An ancestor's index never exceeds the descendant's.
pub proof fn lemma_anc_le(j: int, x: int)
    requires
        is_anc(j, x),
    ensures
        j <= x,
    decreases x,
{
    if j != x && x > j && x >= 2 {
        lemma_anc_le(j, x / 2);
    }
}

/// A strict ancestor's subtree starts at twice its index.
pub proof fn lemma_anc_lower(j: int, x: int)
    requires
        is_anc(j, x),
        j != x,
    ensures
        x >= 2 * j,
    decreases x,
{
    if x > j && x >= 2 {
        if j == x / 2 {
        } else {
            lemma_anc_lower(j, x / 2);
        }
    }
}

/// Ancestry moves up one level: the parent of an ancestor is an ancestor.
pub proof fn lemma_anc_parent(i: int, x: int)
    requires
        is_anc(i, x),
        i >= 2,
    ensures
        is_anc(i / 2, x),
    decreases x,
{
    if i == x {
        assert(is_anc(i / 2, i / 2));
    } else if x > i && x >= 2 {
        lemma_anc_parent(i, x / 2);
    }
}

/// Two ancestors of one node form a chain: the lower is an ancestor of the
/// higher.
pub proof fn lemma_anc_chain(a: int, b: int, x: int)
    requires
        is_anc(a, x),
        is_anc(b, x),
        a < b,
    ensures
        is_anc(a, b),
    decreases x,
{
    if x == b {
    } else {
        lemma_anc_le(b, x);
        assert(x > b > a);
        lemma_anc_chain(a, b, x / 2);
    }
}

/// Ancestry is transitive.
pub proof fn lemma_anc_trans(a: int, b: int, x: int)
    requires
        is_anc(a, b),
        is_anc(b, x),
    ensures
        is_anc(a, x),
    decreases x,
{
    lemma_anc_le(a, b);
    lemma_anc_le(b, x);
    if b != x {
        assert(is_anc(b, x / 2));
        lemma_anc_trans(a, b, x / 2);
    }
}

/// Every node at or below a level bound has an ancestor within that level.
pub proof fn lemma_anc_at_level(x: int, lo: int)
    requires
        1 <= lo <= x,
    ensures
        exists|j: int| lo <= j < 2 * lo && #[trigger] is_anc(j, x),
    decreases x,
{
    if x < 2 * lo {
        assert(is_anc(x, x));
    } else {
        lemma_anc_at_level(x / 2, lo);
        let j = choose|j: int| lo <= j < 2 * lo && #[trigger] is_anc(j, x / 2);
        assert(is_anc(j, x));
    }
}

/// Recomputing the ancestors of node `c` never changes a slot at or below
/// `c`'s own level, and never changes the length.
pub proof fn lemma_propagate_frame(t: Seq<Seq<u8>>, c: int)
    requires
        1 <= c < t.len(),
    ensures
        propagate(t, c).len() == t.len(),
        forall|j: int| c <= j < t.len() ==> #[trigger] propagate(t, c)[j] == t[j],
    decreases c,
{
    if c > 1 {
        let t1 = t.update(c / 2, combine_of(t[pair_left(c)], t[pair_left(c) + 1]));
        lemma_propagate_frame(t1, c / 2);
        assert forall|j: int| c <= j < t.len() implies #[trigger] propagate(t, c)[j] == t[j] by {
            assert(propagate(t, c)[j] == propagate(t1, c / 2)[j]);
            assert(propagate(t1, c / 2)[j] == t1[j]);
            assert(t1[j] == t[j]);
        }
    }
}

} // verus!
