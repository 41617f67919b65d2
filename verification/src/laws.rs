//! The library's general laws: the root of a consistent tree is the
//! pairwise reduction of its leaf row, writing the same leaf value twice is
//! a no-op the second time, and a batched update produces exactly the tree
//! that the same single-leaf updates produce one at a time.

use vstd::prelude::*;

use crate::hash::combine_of;
use crate::model::{
    bulk_result, consistent, folded, folded_model, is_anc, is_pow2, lemma_anc_le,
    lemma_anc_lower, lemma_anc_trans, lemma_propagate_frame, pair_left, propagate, rebuilt,
    rebuilt_all, reduce, strictly_increasing, touches, update_model, updated, written,
};

verus! {

/// The value of slot `j` once every proper ancestor of node `i` has been
/// recomputed bottom-up; all other slots keep their value.
spec fn path_val(t: Seq<Seq<u8>>, i: int, j: int) -> Seq<u8>
    decreases t.len() - j,
{
    if 1 <= j && 2 * j + 1 < t.len() && is_anc(j, i) && j != i {
        combine_of(path_val(t, i, 2 * j), path_val(t, i, 2 * j + 1))
    } else {
        t[j]
    }
}

/// No node at or above the root is an ancestor of a real slot.
proof fn lemma_anc_pos(j: int, x: int)
    requires
        x >= 1,
        j <= 0,
    ensures
        !is_anc(j, x),
    decreases x,
{
    if x >= 2 {
        lemma_anc_pos(j, x / 2);
    }
}

/// Rewriting the pair of `i` into the parent slot commutes with the
/// remaining recomputation along the path.
proof fn lemma_path_step(t: Seq<Seq<u8>>, i: int, j: int)
    requires
        2 <= i < t.len(),
        t.len() % 2 == 0,
        0 <= j < t.len(),
    ensures
        path_val(t.update(i / 2, combine_of(t[2 * (i / 2)], t[2 * (i / 2) + 1])), i / 2, j)
            == path_val(t, i, j),
    decreases t.len() - j,
{
    let p = i / 2;
    let t1 = t.update(p, combine_of(t[2 * p], t[2 * p + 1]));
    if 1 <= j && 2 * j + 1 < t.len() && is_anc(j, p) && j != p {
        lemma_anc_le(j, p);
        lemma_path_step(t, i, 2 * j);
        lemma_path_step(t, i, 2 * j + 1);
        assert(is_anc(j, i));
    } else if j == p {
        assert(is_anc(p, p));
        assert(is_anc(p, i));
        assert(1 <= p && 2 * p + 1 < t.len());
        if 2 * p != i && is_anc(2 * p, i) {
            assert(is_anc(2 * p, p));
            lemma_anc_le(2 * p, p);
        }
        if 2 * p + 1 != i && is_anc(2 * p + 1, i) {
            assert(is_anc(2 * p + 1, p));
            lemma_anc_le(2 * p + 1, p);
        }
        assert(path_val(t, i, 2 * p) == t[2 * p]);
        assert(path_val(t, i, 2 * p + 1) == t[2 * p + 1]);
        assert(path_val(t1, p, p) == t1[p]);
    } else {
        if 1 <= j && 2 * j + 1 < t.len() && is_anc(j, i) && j != i {
            assert(is_anc(j, p));
            assert(false);
        }
        assert(path_val(t1, p, j) == t1[j]);
        assert(path_val(t, i, j) == t[j]);
    }
}

/// The upward walk computes exactly the recomputation of `i`'s proper
/// ancestors.
proof fn lemma_propagate_is_path(t: Seq<Seq<u8>>, i: int)
    requires
        1 <= i < t.len(),
        t.len() % 2 == 0,
    ensures
        propagate(t, i).len() == t.len(),
        forall|j: int| 0 <= j < t.len() ==> #[trigger] propagate(t, i)[j] == path_val(t, i, j),
    decreases i,
{
    if i == 1 {
        assert forall|j: int| 0 <= j < t.len() implies #[trigger] propagate(t, i)[j] == path_val(
            t,
            i,
            j,
        ) by {
            if is_anc(j, 1) && j != 1 {
                lemma_anc_le(j, 1);
                lemma_anc_pos(j, 1);
            }
        }
    } else {
        let p = i / 2;
        let t1 = t.update(p, combine_of(t[pair_left(i)], t[pair_left(i) + 1]));
        assert(pair_left(i) == 2 * p);
        lemma_propagate_is_path(t1, p);
        assert forall|j: int| 0 <= j < t.len() implies #[trigger] propagate(t, i)[j] == path_val(
            t,
            i,
            j,
        ) by {
            assert(propagate(t, i) == propagate(t1, p));
            assert(propagate(t1, p)[j] == path_val(t1, p, j));
            lemma_path_step(t, i, j);
        }
    }
}

/// Over a single updated slot, `touches` is plain ancestry.
proof fn lemma_touches_single(i: int, j: int)
    ensures
        touches(seq![i], j) <==> is_anc(j, i),
{
    let s = seq![i];
    if touches(s, j) {
        let m = choose|m: int| 0 <= m < s.len() && is_anc(j, #[trigger] s[m]);
        assert(s[m] == i);
    }
    if is_anc(j, i) {
        assert(is_anc(j, s[0]));
        assert(touches(s, j));
    }
}

/// For a leaf slot `i`, the path recomputation is the singleton batched
/// recomputation.
proof fn lemma_path_is_rebuilt_single(t: Seq<Seq<u8>>, i: int, j: int)
    requires
        t.len() / 2 <= i < t.len(),
        t.len() % 2 == 0,
    ensures
        path_val(t, i, j) == rebuilt(t, seq![i], j),
    decreases t.len() - j,
{
    lemma_touches_single(i, j);
    if 1 <= j && 2 * j + 1 < t.len() && is_anc(j, i) && j != i {
        lemma_path_is_rebuilt_single(t, i, 2 * j);
        lemma_path_is_rebuilt_single(t, i, 2 * j + 1);
    } else {
        if 1 <= j && 2 * j + 1 < t.len() && touches(seq![i], j) {
            assert(j == i);
            assert(false);
        }
    }
}

/// One leaf update is the batched recomputation pass of that one slot.
proof fn lemma_updated_is_rebuilt(t: Seq<Seq<u8>>, i: int, v: Seq<u8>)
    requires
        t.len() / 2 <= i < t.len(),
        t.len() % 2 == 0,
        t.len() >= 2,
    ensures
        updated(t, i, v).len() == t.len(),
        forall|j: int|
            0 <= j < t.len() ==> #[trigger] updated(t, i, v)[j] == rebuilt(
                t.update(i, v),
                seq![i],
                j,
            ),
{
    let t1 = t.update(i, v);
    lemma_propagate_is_path(t1, i);
    assert forall|j: int| 0 <= j < t.len() implies #[trigger] updated(t, i, v)[j] == rebuilt(
        t1,
        seq![i],
        j,
    ) by {
        lemma_path_is_rebuilt_single(t1, i, j);
    }
}

/// On a consistent tree, recomputing ancestors changes nothing.
proof fn lemma_rebuilt_consistent(t: Seq<Seq<u8>>, reals: Seq<int>, j: int)
    requires
        consistent(t),
    ensures
        rebuilt(t, reals, j) == t[j],
    decreases t.len() - j,
{
    if 1 <= j && 2 * j + 1 < t.len() && touches(reals, j) {
        lemma_rebuilt_consistent(t, reals, 2 * j);
        lemma_rebuilt_consistent(t, reals, 2 * j + 1);
        assert(t[j] == combine_of(t[2 * j], t[2 * j + 1]));
    }
}

/// A single-leaf update keeps the tree consistent.
proof fn lemma_updated_consistent(t: Seq<Seq<u8>>, i: int, v: Seq<u8>)
    requires
        consistent(t),
        t.len() / 2 <= i < t.len(),
        t.len() % 2 == 0,
        t.len() >= 2,
    ensures
        consistent(updated(t, i, v)),
{
    let t1 = t.update(i, v);
    let res = updated(t, i, v);
    lemma_updated_is_rebuilt(t, i, v);
    assert forall|n: int| 1 <= n < res.len() / 2 implies #[trigger] res[n] == combine_of(
        res[2 * n],
        res[2 * n + 1],
    ) by {
        lemma_touches_single(i, n);
        assert(res[n] == rebuilt(t1, seq![i], n));
        assert(res[2 * n] == rebuilt(t1, seq![i], 2 * n));
        assert(res[2 * n + 1] == rebuilt(t1, seq![i], 2 * n + 1));
        if touches(seq![i], n) {
            assert(rebuilt(t1, seq![i], n) == combine_of(
                rebuilt(t1, seq![i], 2 * n),
                rebuilt(t1, seq![i], 2 * n + 1),
            ));
        } else {
            assert(!is_anc(n, i));
            if is_anc(2 * n, i) {
                assert(is_anc(n, n));
                assert(is_anc(n, 2 * n));
                lemma_anc_trans(n, 2 * n, i);
            }
            if is_anc(2 * n + 1, i) {
                assert(is_anc(n, n));
                assert(is_anc(n, 2 * n + 1));
                lemma_anc_trans(n, 2 * n + 1, i);
            }
            lemma_touches_single(i, 2 * n);
            lemma_touches_single(i, 2 * n + 1);
            assert(rebuilt(t1, seq![i], n) == t1[n]);
            assert(rebuilt(t1, seq![i], 2 * n) == t1[2 * n]);
            assert(rebuilt(t1, seq![i], 2 * n + 1) == t1[2 * n + 1]);
            assert(t[n] == combine_of(t[2 * n], t[2 * n + 1]));
        }
    }
}

/// Adding one updated leaf to a batch changes nothing outside that leaf's
/// path.
proof fn lemma_rebuilt_unaffected(
    wf_: Seq<Seq<u8>>,
    wa: Seq<Seq<u8>>,
    front: Seq<int>,
    all: Seq<int>,
    i: int,
    j: int,
)
    requires
        wa.len() == wf_.len(),
        all == front.push(i),
        forall|c: int| 0 <= c < wa.len() && c != i ==> #[trigger] wa[c] == wf_[c],
        !is_anc(j, i),
        0 <= j < wa.len(),
    ensures
        rebuilt(wa, all, j) == rebuilt(wf_, front, j),
    decreases wa.len() - j,
{
    lemma_touches_push(front, i, j);
    if 1 <= j && 2 * j + 1 < wa.len() && touches(front, j) {
        if is_anc(2 * j, i) {
            assert(is_anc(j, j));
            assert(is_anc(j, 2 * j));
            lemma_anc_trans(j, 2 * j, i);
        }
        if is_anc(2 * j + 1, i) {
            assert(is_anc(j, j));
            assert(is_anc(j, 2 * j + 1));
            lemma_anc_trans(j, 2 * j + 1, i);
        }
        lemma_rebuilt_unaffected(wf_, wa, front, all, i, 2 * j);
        lemma_rebuilt_unaffected(wf_, wa, front, all, i, 2 * j + 1);
    } else {
        assert(j != i);
        assert(rebuilt(wa, all, j) == wa[j]);
        assert(rebuilt(wf_, front, j) == wf_[j]);
    }
}

/// Membership in a batch extended by one slot.
proof fn lemma_touches_push(front: Seq<int>, i: int, j: int)
    ensures
        touches(front.push(i), j) <==> (touches(front, j) || is_anc(j, i)),
{
    let all = front.push(i);
    if touches(all, j) {
        let m = choose|m: int| 0 <= m < all.len() && is_anc(j, #[trigger] all[m]);
        if m < front.len() {
            assert(is_anc(j, front[m]));
            assert(touches(front, j));
        } else {
            assert(all[m] == i);
        }
    }
    if touches(front, j) {
        let m = choose|m: int| 0 <= m < front.len() && is_anc(j, #[trigger] front[m]);
        assert(is_anc(j, all[m]));
        assert(touches(all, j));
    }
    if is_anc(j, i) {
        assert(is_anc(j, all[front.len() as int]));
        assert(touches(all, j));
    }
}

/// Writing a batch of slots keeps the tree's length.
proof fn lemma_written_len(t: Seq<Seq<u8>>, reals: Seq<int>, vals: Seq<Seq<u8>>)
    requires
        forall|m: int| 0 <= m < reals.len() ==> 0 <= #[trigger] reals[m] && reals[m] < t.len(),
    ensures
        written(t, reals, vals).len() == t.len(),
    decreases reals.len(),
{
    if reals.len() > 0 {
        let front = reals.drop_last();
        assert forall|m: int| 0 <= m < front.len() implies 0 <= #[trigger] front[m] && front[m]
            < t.len() by {
            assert(front[m] == reals[m]);
        }
        lemma_written_len(t, front, vals.drop_last());
    }
}

/// The batched result grows one update at a time: slot by slot it equals
/// the singleton pass applied to the shorter batch's result.
proof fn lemma_bulk_step_pointwise(t: Seq<Seq<u8>>, reals: Seq<int>, vals: Seq<Seq<u8>>, j: int)
    requires
        reals.len() == vals.len(),
        reals.len() >= 1,
        strictly_increasing(reals),
        t.len() >= 2,
        t.len() % 2 == 0,
        forall|m: int|
            0 <= m < reals.len() ==> t.len() / 2 <= #[trigger] reals[m] && reals[m] < t.len(),
        0 <= j < t.len(),
    ensures
        rebuilt(written(t, reals, vals), reals, j) == rebuilt(
            bulk_result(t, reals.drop_last(), vals.drop_last()).update(
                reals.last(),
                vals.last(),
            ),
            seq![reals.last()],
            j,
        ),
    decreases t.len() - j,
{
    let front = reals.drop_last();
    let fvals = vals.drop_last();
    let i = reals.last();
    let v = vals.last();
    let wa = written(t, reals, vals);
    let wf_ = written(t, front, fvals);
    let b = bulk_result(t, front, fvals);
    let b1 = b.update(i, v);
    assert forall|m: int| 0 <= m < front.len() implies t.len() / 2 <= #[trigger] front[m]
        && front[m] < t.len() by {
        assert(front[m] == reals[m]);
    }
    lemma_written_len(t, front, fvals);
    lemma_written_len(t, reals, vals);
    assert(wa == wf_.update(i, v));
    assert(reals =~= front.push(i));
    lemma_touches_push(front, i, j);
    lemma_touches_single(i, j);
    if j == i {
        assert(is_anc(i, i));
        assert(2 * j + 1 >= t.len());
        assert(rebuilt(wa, reals, j) == wa[j]);
        assert(wa[i] == v);
        assert(rebuilt(b1, seq![i], j) == b1[j]);
        assert(b1[i] == v);
    } else if is_anc(j, i) {
        lemma_anc_lower(j, i);
        if j <= 0 {
            lemma_anc_pos(j, i);
        }
        assert(2 * j + 1 != t.len());
        assert(1 <= j && 2 * j + 1 < t.len());
        assert(touches(reals, j));
        lemma_bulk_step_pointwise(t, reals, vals, 2 * j);
        lemma_bulk_step_pointwise(t, reals, vals, 2 * j + 1);
        assert(rebuilt(wa, reals, j) == combine_of(
            rebuilt(wa, reals, 2 * j),
            rebuilt(wa, reals, 2 * j + 1),
        ));
        assert(rebuilt(b1, seq![i], j) == combine_of(
            rebuilt(b1, seq![i], 2 * j),
            rebuilt(b1, seq![i], 2 * j + 1),
        ));
    } else {
        lemma_rebuilt_unaffected(wf_, wa, front, reals, i, j);
        assert(rebuilt(b1, seq![i], j) == b1[j]);
        assert(b1[j] == b[j]);
        assert(b[j] == rebuilt(wf_, front, j));
    }
}

/// The batched result is the fold of the single updates, in order.
proof fn lemma_bulk_is_folded(t: Seq<Seq<u8>>, reals: Seq<int>, vals: Seq<Seq<u8>>)
    requires
        reals.len() == vals.len(),
        strictly_increasing(reals),
        t.len() >= 2,
        t.len() % 2 == 0,
        forall|m: int|
            0 <= m < reals.len() ==> t.len() / 2 <= #[trigger] reals[m] && reals[m] < t.len(),
    ensures
        bulk_result(t, reals, vals) == folded(t, reals, vals),
        folded(t, reals, vals).len() == t.len(),
    decreases reals.len(),
{
    lemma_written_len(t, reals, vals);
    if reals.len() == 0 {
        assert(written(t, reals, vals) == t);
        assert forall|j: int| 0 <= j < t.len() implies #[trigger] rebuilt_all(t, reals)[j]
            == t[j] by {
            if touches(reals, j) {
                let m = choose|m: int| 0 <= m < reals.len() && is_anc(j, #[trigger] reals[m]);
                assert(false);
            }
            assert(rebuilt(t, reals, j) == t[j]);
        }
        assert(bulk_result(t, reals, vals) =~= folded(t, reals, vals));
    } else {
        let front = reals.drop_last();
        let fvals = vals.drop_last();
        let i = reals.last();
        let v = vals.last();
        assert forall|m: int| 0 <= m < front.len() implies t.len() / 2 <= #[trigger] front[m]
            && front[m] < t.len() by {
            assert(front[m] == reals[m]);
        }
        assert forall|a: int, b: int| 0 <= a < b < front.len() implies #[trigger] front[a]
            < #[trigger] front[b] by {
            assert(front[a] == reals[a] && front[b] == reals[b]);
        }
        lemma_bulk_is_folded(t, front, fvals);
        let b = bulk_result(t, front, fvals);
        lemma_written_len(t, front, fvals);
        lemma_updated_is_rebuilt(b, i, v);
        assert forall|j: int| 0 <= j < t.len() implies #[trigger] bulk_result(t, reals, vals)[j]
            == folded(t, reals, vals)[j] by {
            lemma_bulk_step_pointwise(t, reals, vals, j);
            assert(folded(t, reals, vals) == updated(b, i, v));
            assert(updated(b, i, v)[j] == rebuilt(b.update(i, v), seq![i], j));
        }
        assert(bulk_result(t, reals, vals) =~= folded(t, reals, vals));
    }
}

/// On a consistent tree the equality fast path changes nothing: folding
/// the full updates and folding the fast-path updates agree, and the
/// result stays consistent.
proof fn lemma_folded_model(t: Seq<Seq<u8>>, reals: Seq<int>, vals: Seq<Seq<u8>>)
    requires
        consistent(t),
        reals.len() == vals.len(),
        t.len() >= 2,
        t.len() % 2 == 0,
        forall|m: int|
            0 <= m < reals.len() ==> t.len() / 2 <= #[trigger] reals[m] && reals[m] < t.len(),
    ensures
        folded_model(t, reals, vals) == folded(t, reals, vals),
        folded(t, reals, vals).len() == t.len(),
        consistent(folded(t, reals, vals)),
    decreases reals.len(),
{
    if reals.len() > 0 {
        let front = reals.drop_last();
        let fvals = vals.drop_last();
        let i = reals.last();
        let v = vals.last();
        assert forall|m: int| 0 <= m < front.len() implies t.len() / 2 <= #[trigger] front[m]
            && front[m] < t.len() by {
            assert(front[m] == reals[m]);
        }
        lemma_folded_model(t, front, fvals);
        let b = folded(t, front, fvals);
        lemma_updated_is_rebuilt(b, i, v);
        lemma_updated_consistent(b, i, v);
        if b[i] == v {
            assert(b.update(i, v) =~= b);
            assert forall|j: int| 0 <= j < b.len() implies #[trigger] updated(b, i, v)[j]
                == b[j] by {
                lemma_rebuilt_consistent(b, seq![i], j);
            }
            assert(updated(b, i, v) =~= b);
        }
    }
}

/// The root of a consistent tree is the recursive left-to-right pairwise
/// reduction of its leaf row.
pub proof fn lemma_root_is_reduction(t: Seq<Seq<u8>>)
    requires
        t.len() >= 2,
        is_pow2(t.len() as int),
        consistent(t),
    ensures
        t[1] == reduce(t.subrange(t.len() as int / 2, t.len() as int)),
{
    let n = t.len() as int;
    assert(is_pow2(n / 2));
    lemma_subtree_reduce(t, 1, n / 2);
}

/// Each node of a consistent tree is the reduction of the leaf-row window
/// that its subtree covers.
proof fn lemma_subtree_reduce(t: Seq<Seq<u8>>, j: int, width: int)
    requires
        consistent(t),
        is_pow2(width),
        1 <= j,
        t.len() as int / 2 <= j * width,
        (j + 1) * width <= t.len(),
    ensures
        t[j] == reduce(t.subrange(j * width, (j + 1) * width)),
    decreases width,
{
    let row = t.subrange(j * width, (j + 1) * width);
    if width == 1 {
        assert(j * width == j && (j + 1) * width == j + 1) by (nonlinear_arith)
            requires
                width == 1,
        ;
        assert(row.len() == 1);
        assert(row[0] == t[j]);
    } else {
        assert(width % 2 == 0 && is_pow2(width / 2));
        let h = width / 2;
        assert((2 * j) * h == j * width && (2 * j + 1) * h == j * width + h && (2 * j + 2) * h == (
        j + 1) * width && 2 * j <= j * width && j * width + width == (j + 1) * width) by (nonlinear_arith)
            requires
                h * 2 == width,
                width >= 2,
                j >= 1,
                h >= 1,
        ;
        assert(2 * j <= t.len() - 2);
        assert(j < t.len() as int / 2);
        assert(t[j] == combine_of(t[2 * j], t[2 * j + 1]));
        lemma_subtree_reduce(t, 2 * j, h);
        lemma_subtree_reduce(t, 2 * j + 1, h);
        assert(row.take(row.len() as int / 2) =~= t.subrange(j * width, j * width + h));
        assert(row.skip(row.len() as int / 2) =~= t.subrange(j * width + h, (j + 1) * width));
        assert(reduce(row) == combine_of(
            reduce(row.take(row.len() as int / 2)),
            reduce(row.skip(row.len() as int / 2)),
        ));
    }
}

/// Writing the same value to the same leaf twice leaves the tree exactly
/// as after the first write: the second call is a no-op.
pub proof fn lemma_update_leaf_idempotent(t: Seq<Seq<u8>>, i: int, v: Seq<u8>)
    requires
        t.len() >= 2,
        t.len() % 2 == 0,
        t.len() / 2 <= i < t.len(),
    ensures
        update_model(update_model(t, i, v), i, v) == update_model(t, i, v),
{
    let once = update_model(t, i, v);
    if t[i] != v {
        lemma_propagate_frame(t.update(i, v), i);
        assert(updated(t, i, v)[i] == v);
    }
    assert(once[i] == v);
}

/// A single-leaf update of a consistent tree leaves every internal node
/// holding the combination of its children.
pub proof fn lemma_update_preserves_consistency(t: Seq<Seq<u8>>, i: int, v: Seq<u8>)
    requires
        t.len() >= 2,
        t.len() % 2 == 0,
        consistent(t),
        t.len() / 2 <= i < t.len(),
    ensures
        consistent(update_model(t, i, v)),
{
    if t[i] != v {
        lemma_updated_consistent(t, i, v);
    }
}

/// A single-leaf update touches nothing outside the updated slot and its
/// ancestors.
pub proof fn lemma_update_frame(t: Seq<Seq<u8>>, i: int, v: Seq<u8>, j: int)
    requires
        t.len() >= 2,
        t.len() % 2 == 0,
        t.len() / 2 <= i < t.len(),
        0 <= j < t.len(),
        !is_anc(j, i),
    ensures
        update_model(t, i, v)[j] == t[j],
{
    if t[i] != v {
        lemma_updated_is_rebuilt(t, i, v);
        lemma_touches_single(i, j);
        assert(updated(t, i, v)[j] == rebuilt(t.update(i, v), seq![i], j));
    }
}

/// A batched update of a consistent tree leaves every internal node
/// holding the combination of its children.
pub proof fn lemma_bulk_preserves_consistency(t: Seq<Seq<u8>>, reals: Seq<int>, vals: Seq<Seq<u8>>)
    requires
        t.len() >= 2,
        t.len() % 2 == 0,
        consistent(t),
        strictly_increasing(reals),
        reals.len() == vals.len(),
        forall|m: int|
            0 <= m < reals.len() ==> t.len() / 2 <= #[trigger] reals[m] && reals[m] < t.len(),
    ensures
        consistent(bulk_result(t, reals, vals)),
{
    lemma_bulk_is_folded(t, reals, vals);
    lemma_folded_model(t, reals, vals);
}

/// A batched update of a consistent tree produces exactly the tree that
/// the same single-leaf updates produce when applied one at a time, in the
/// same ascending order.
pub proof fn lemma_bulk_matches_sequential(t: Seq<Seq<u8>>, reals: Seq<int>, vals: Seq<Seq<u8>>)
    requires
        t.len() >= 2,
        t.len() % 2 == 0,
        consistent(t),
        strictly_increasing(reals),
        reals.len() == vals.len(),
        forall|m: int|
            0 <= m < reals.len() ==> t.len() / 2 <= #[trigger] reals[m] && reals[m] < t.len(),
    ensures
        bulk_result(t, reals, vals) == folded_model(t, reals, vals),
{
    lemma_bulk_is_folded(t, reals, vals);
    lemma_folded_model(t, reals, vals);
}

} // verus!
