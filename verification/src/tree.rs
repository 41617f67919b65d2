//! The array-backed, 1-indexed binary Merkle tree.

use vstd::prelude::*;

use crate::hash::{combine_of, get_parent, zero_hash, HashValue};
use crate::model::{
    bulk_result, consistent, has_index, has_parent_upto, is_anc, is_pow2,
    lemma_adjacent_increasing, lemma_anc_at_level, lemma_anc_chain, lemma_anc_lower,
    lemma_anc_parent, pair_left, rebuilt, rebuilt_all, shifted, sibling, strictly_increasing,
    touches, update_model, views_of, written,
};

verus! {

/// A binary Merkle tree stored as a flat vector. Slot 0 is an unused filler,
/// slot 1 holds the root, and the second half of the vector holds the leaves
/// in left-to-right order. For any internal index `i`, the children sit at
/// `2 * i` and `2 * i + 1`, so parent, sibling and child positions follow
/// from index arithmetic alone.
pub struct BinaryMerkleTree {
    pub tree: Vec<HashValue>,
}

impl BinaryMerkleTree {
    /// All slots as byte sequences.
    pub open spec fn nodes(self) -> Seq<Seq<u8>> {
        self.tree@.map_values(|h: HashValue| h@)
    }

    /// The backing vector has length `2 * L` with `L`, the number of leaf
    /// slots, a power of two.
    pub open spec fn wf(self) -> bool {
        self.tree@.len() >= 2 && is_pow2(self.tree@.len() as int)
    }

    /// The number of leaf slots.
    pub open spec fn spec_num_leaves(self) -> int {
        self.tree@.len() as int / 2
    }

    /// Allocate a tree whose every slot holds the zero hash.
    pub fn new_empty(number_of_leaves: u64) -> (r: Self)
        requires
            1 <= number_of_leaves,
            is_pow2(number_of_leaves as int),
            2 * number_of_leaves <= usize::MAX,
        ensures
            r.wf(),
            r.nodes().len() == 2 * number_of_leaves,
            forall|j: int| 0 <= j < r.nodes().len() ==> r.nodes()[j] == zero_hash(),
    {
        let n = number_of_leaves as usize;
        let total: usize = 2 * n;
        let mut tree: Vec<HashValue> = Vec::new();
        let mut k: usize = 0;
        while k < total
            invariant
                k <= total,
                tree@.len() == k,
                forall|j: int| 0 <= j < k ==> #[trigger] tree@[j]@ == zero_hash(),
            decreases total - k,
        {
            tree.push(HashValue::zero());
            k = k + 1;
        }
        proof {
            assert(is_pow2(2 * (number_of_leaves as int)));
        }
        BinaryMerkleTree { tree }
    }

    /// Copy the leaves into the leaf row, then build the ancestors bottom-up:
    /// each sibling pair is combined into its parent, level by level, until
    /// the root slot is filled.
    pub fn create_tree_from_leaves(&mut self, leaves: Vec<HashValue>)
        requires
            old(self).wf(),
            1 <= leaves@.len(),
            2 * leaves@.len() == old(self).nodes().len(),
        ensures
            final(self).wf(),
            final(self).nodes().len() == old(self).nodes().len(),
            final(self).nodes()[0] == old(self).nodes()[0],
            forall|k: int|
                0 <= k < leaves@.len() ==> final(self).nodes()[leaves@.len() + k] == leaves@[k]@,
            consistent(final(self).nodes()),
    {
        let number_of_leaves = leaves.len();
        let tree_len = self.tree.len();
        assert(2 * number_of_leaves == tree_len);
        let mut k: usize = 0;
        while k < number_of_leaves
            invariant
                k <= number_of_leaves,
                number_of_leaves == leaves@.len(),
                self.tree@.len() == 2 * number_of_leaves,
                2 * number_of_leaves <= usize::MAX,
                forall|m: int|
                    0 <= m < k ==> #[trigger] self.tree@[number_of_leaves + m]@ == leaves@[m]@,
                forall|j: int|
                    0 <= j < self.tree@.len() && !(number_of_leaves <= j < number_of_leaves + k)
                        ==> #[trigger] self.tree@[j] == old(self).tree@[j],
            decreases number_of_leaves - k,
        {
            let leaf = leaves[k];
            self.tree[number_of_leaves + k] = leaf;
            k = k + 1;
        }
        // With a single leaf the root slot is the leaf itself and no
        // combination step runs.
        if number_of_leaves == 1 {
            return ;
        }
        let ghost mid = self.nodes();
        let mut i: usize = number_of_leaves - 1;
        while i >= 1
            invariant
                2 <= number_of_leaves,
                i <= number_of_leaves - 1,
                self.tree@.len() == 2 * number_of_leaves,
                2 * number_of_leaves <= usize::MAX,
                mid.len() == 2 * number_of_leaves,
                forall|j: int|
                    i < j < number_of_leaves ==> #[trigger] self.tree@[j]@ == combine_of(
                        self.tree@[2 * j]@,
                        self.tree@[2 * j + 1]@,
                    ),
                forall|j: int|
                    (0 <= j <= i || number_of_leaves <= j < 2 * number_of_leaves)
                        ==> #[trigger] self.tree@[j]@ == mid[j],
            decreases i,
        {
            let left = self.tree[2 * i];
            let right = self.tree[2 * i + 1];
            let parent_hash = get_parent(&left, &right);
            self.tree[i] = parent_hash;
            i = i - 1;
        }
        proof {
            assert forall|j: int| 1 <= j < self.nodes().len() / 2 implies #[trigger] self.nodes()[j]
                == combine_of(self.nodes()[2 * j], self.nodes()[2 * j + 1]) by {
                assert(self.tree@[j]@ == combine_of(self.tree@[2 * j]@, self.tree@[2 * j + 1]@));
            }
        }
    }

    /// Build a tree from a row of leaf hashes: allocate a zero-filled tree,
    /// then fill the leaf row and compute every ancestor.
    pub fn new_from_leaves(leaves: Vec<HashValue>) -> (r: BinaryMerkleTree)
        requires
            1 <= leaves@.len(),
            is_pow2(leaves@.len() as int),
            2 * leaves@.len() <= usize::MAX,
        ensures
            r.wf(),
            r.nodes().len() == 2 * leaves@.len(),
            r.spec_num_leaves() == leaves@.len(),
            forall|k: int|
                0 <= k < leaves@.len() ==> r.nodes()[leaves@.len() + k] == leaves@[k]@,
            consistent(r.nodes()),
            r.nodes()[0] == zero_hash(),
    {
        let number_of_leaves = leaves.len();
        let mut tree = Self::new_empty(number_of_leaves as u64);
        tree.create_tree_from_leaves(leaves);
        tree
    }

    /// The hash at slot 1.
    pub fn root(&self) -> (r: HashValue)
        requires
            self.wf(),
        ensures
            r@ == self.nodes()[1],
    {
        self.tree[1]
    }

    /// Half the backing length: the number of leaf slots.
    pub fn num_leaves(&self) -> (r: usize)
        ensures
            r == self.spec_num_leaves(),
    {
        self.tree.len() / 2
    }

    /// The number of slots in use; slot 0 is the unused filler.
    pub fn get_tree_length(&self) -> (r: usize)
        requires
            self.wf(),
        ensures
            r == self.nodes().len() - 1,
    {
        self.tree.len() - 1
    }

    /// Overwrite one leaf and recompute the hash of every one of its
    /// ancestors, walking upward sibling pair by sibling pair. `leaf_index`
    /// is 0-based. Writing the value the slot already holds is a no-op.
    pub fn update_leaf(&mut self, leaf_index: usize, leaf: HashValue)
        requires
            old(self).wf(),
            leaf_index < old(self).spec_num_leaves(),
        ensures
            final(self).wf(),
            final(self).nodes() == update_model(
                old(self).nodes(),
                leaf_index + old(self).spec_num_leaves(),
                leaf@,
            ),
    {
        let number_of_leaves = self.num_leaves();
        let tree_len = self.tree.len();
        assert(leaf_index + number_of_leaves < tree_len);
        let real_leaf_index = leaf_index + number_of_leaves;
        let ghost t0 = self.nodes();
        let ghost ridx = real_leaf_index as int;
        if self.tree[real_leaf_index].equals(&leaf) {
            return ;
        }
        self.tree[real_leaf_index] = leaf;
        let ghost target = crate::model::updated(t0, ridx, leaf@);
        proof {
            assert(self.nodes() =~= t0.update(ridx, leaf@));
        }
        let mut current_index = real_leaf_index;
        while current_index > 1
            invariant
                1 <= current_index < self.tree@.len(),
                self.tree@.len() == t0.len(),
                self.tree@.len() <= usize::MAX,
                t0.len() >= 2,
                is_pow2(t0.len() as int),
                crate::model::propagate(self.nodes(), current_index as int) == target,
            decreases current_index,
        {
            proof {
                assert(is_pow2(self.tree@.len() as int));
                assert(self.tree@.len() % 2 == 0);
            }
            let parent_index = Self::get_parent_index(current_index);
            let (left_node_index, right_node_index) =
                self.get_left_and_right_node_indices_from_index(current_index);
            let left_node = self.tree[left_node_index];
            let right_node = self.tree[right_node_index];
            let parent_hash = get_parent(&left_node, &right_node);
            let ghost before = self.nodes();
            self.tree[parent_index] = parent_hash;
            proof {
                assert(self.nodes() =~= before.update(
                    parent_index as int,
                    combine_of(before[pair_left(current_index as int)], before[pair_left(
                        current_index as int,
                    ) + 1]),
                ));
            }
            current_index = parent_index;
        }
        proof {
            assert(crate::model::propagate(self.nodes(), 1) == self.nodes());
            assert(t0[ridx] != leaf@);
        }
    }

    /// Batched leaf update: overwrite the given leaves, then recompute the
    /// ancestors level by level along a pending queue seeded with the
    /// updated slots. When both members of a sibling pair are pending, their
    /// shared parent is recomputed once, not twice. The 0-based leaf indices
    /// must be strictly ascending; this is validated before any slot is
    /// written, and a violation returns `None` with the tree untouched.
    #[verifier::rlimit(50)]
    pub fn bulk_insert_leaves(
        &mut self,
        leaf_indices: Vec<usize>,
        leaf_hashes: Vec<HashValue>,
    ) -> (r: Option<()>)
        requires
            old(self).wf(),
            1 <= leaf_indices@.len(),
            leaf_indices@.len() == leaf_hashes@.len(),
            forall|m: int|
                0 <= m < leaf_indices@.len() ==> (#[trigger] leaf_indices@[m]) < old(
                    self,
                ).spec_num_leaves(),
        ensures
            final(self).wf(),
            final(self).nodes().len() == old(self).nodes().len(),
            r is Some <==> strictly_increasing(
                shifted(leaf_indices@, old(self).spec_num_leaves()),
            ),
            r is None ==> final(self).nodes() == old(self).nodes(),
            r is Some ==> final(self).nodes() == bulk_result(
                old(self).nodes(),
                shifted(leaf_indices@, old(self).spec_num_leaves()),
                views_of(leaf_hashes@),
            ),
    {
        let number_of_leaves = self.num_leaves();
        let tree_len = self.tree.len();
        let ghost t0 = self.nodes();
        let ghost half = number_of_leaves as int;
        let ghost reals = shifted(leaf_indices@, half);
        let ghost vals = views_of(leaf_hashes@);

        // Map the 0-based leaf positions to their internal slot indices.
        let mut real_indices: Vec<usize> = Vec::new();
        let mut k: usize = 0;
        while k < leaf_indices.len()
            invariant
                k <= leaf_indices@.len(),
                real_indices@.len() == k,
                number_of_leaves as int == half,
                2 * half == tree_len as int,
                forall|m: int|
                    0 <= m < leaf_indices@.len() ==> (#[trigger] leaf_indices@[m]) < half,
                forall|m: int|
                    0 <= m < k ==> #[trigger] real_indices@[m] as int == leaf_indices@[m] as int
                        + half,
            decreases leaf_indices@.len() - k,
        {
            let idx = leaf_indices[k];
            real_indices.push(idx + number_of_leaves);
            k = k + 1;
        }
        proof {
            assert forall|m: int| 0 <= m < reals.len() implies half <= #[trigger] reals[m]
                && reals[m] < 2 * half && reals[m] == real_indices@[m] as int by {
                assert(leaf_indices@[m] < half);
            }
        }

        // Reject a descent or a duplicate before any slot is written.
        let count = real_indices.len();
        let mut k: usize = 0;
        while k + 1 < count
            invariant
                count == real_indices@.len(),
                real_indices@.len() == leaf_indices@.len(),
                1 <= leaf_indices@.len(),
                k + 1 <= count,
                self.tree@ == old(self).tree@,
                old(self).wf(),
                half == old(self).spec_num_leaves(),
                reals == shifted(leaf_indices@, half),
                reals.len() == leaf_indices@.len(),
                forall|m: int|
                    0 <= m < reals.len() ==> #[trigger] reals[m] == real_indices@[m] as int,
                forall|m: int| 0 <= m < k ==> #[trigger] real_indices@[m] < real_indices@[m + 1],
            decreases count - k,
        {
            if real_indices[k] >= real_indices[k + 1] {
                proof {
                    assert(reals[k as int] >= reals[k as int + 1]);
                    assert(!strictly_increasing(reals));
                }
                return None;
            }
            k = k + 1;
        }
        proof {
            assert forall|m: int| 0 <= m < reals.len() - 1 implies #[trigger] reals[m] < reals[m
                + 1] by {
                assert(real_indices@[m] < real_indices@[m + 1]);
            }
            lemma_adjacent_increasing(reals);
        }

        // Overwrite every given leaf slot.
        let mut k: usize = 0;
        while k < count
            invariant
                count == real_indices@.len(),
                real_indices@.len() == leaf_indices@.len(),
                leaf_indices@.len() == leaf_hashes@.len(),
                reals.len() == leaf_indices@.len(),
                vals.len() == leaf_indices@.len(),
                k <= leaf_indices@.len(),
                self.tree@.len() == t0.len(),
                t0.len() == tree_len,
                tree_len as int == 2 * half,
                forall|m: int|
                    0 <= m < reals.len() ==> half <= #[trigger] reals[m] && reals[m] < 2 * half
                        && reals[m] == real_indices@[m] as int,
                forall|m: int| 0 <= m < vals.len() ==> #[trigger] vals[m] == leaf_hashes@[m]@,
                self.nodes() == written(t0, reals.take(k as int), vals.take(k as int)),
            decreases count - k,
        {
            let real_idx = real_indices[k];
            let h = leaf_hashes[k];
            proof {
                assert(reals[k as int] == real_idx as int);
                assert(vals[k as int] == h@);
            }
            let ghost before = self.nodes();
            self.tree[real_idx] = h;
            proof {
                assert(reals.take(k as int + 1).drop_last() =~= reals.take(k as int));
                assert(vals.take(k as int + 1).drop_last() =~= vals.take(k as int));
                assert(self.nodes() =~= before.update(real_idx as int, h@));
                assert(self.nodes() =~= written(
                    t0,
                    reals.take(k as int + 1),
                    vals.take(k as int + 1),
                ));
            }
            k = k + 1;
        }
        proof {
            assert(reals.take(reals.len() as int) =~= reals);
            assert(vals.take(vals.len() as int) =~= vals);
        }
        let ghost w = written(t0, reals, vals);

        // Recompute ancestors level by level along the pending queue.
        let mut pending = real_indices;
        let ghost mut lo: int = half;
        proof {
            assert forall|a: int, b: int| 0 <= a < b < pending@.len() implies #[trigger] pending@[a]
                < #[trigger] pending@[b] by {
                assert(reals[a] < reals[b]);
            }
            assert forall|j: int| lo <= j < 2 * lo implies (has_index(pending@, j) <==> touches(
                reals,
                j,
            )) by {
                if has_index(pending@, j) {
                    let m = choose|m: int|
                        0 <= m < pending@.len() && #[trigger] pending@[m] as int == j;
                    assert(is_anc(j, reals[m]));
                    assert(touches(reals, j));
                }
                if touches(reals, j) {
                    let m = choose|m: int| 0 <= m < reals.len() && is_anc(j, #[trigger] reals[m]);
                    if j != reals[m] {
                        lemma_anc_lower(j, reals[m]);
                        assert(false);
                    }
                    assert(pending@[m] as int == j);
                    assert(has_index(pending@, j));
                }
            }
            assert forall|j: int| 0 <= j < t0.len() implies #[trigger] self.nodes()[j] == (if j
                >= lo && touches(reals, j) {
                rebuilt(w, reals, j)
            } else {
                w[j]
            }) by {
                if j >= lo && touches(reals, j) {
                    assert(2 * j + 1 >= t0.len());
                    assert(rebuilt(w, reals, j) == w[j]);
                }
            }
        }
        while pending[0] != 1
            invariant
                self.tree@.len() == t0.len(),
                t0.len() == tree_len,
                tree_len as int == 2 * half,
                1 <= half,
                is_pow2(t0.len() as int),
                is_pow2(lo),
                1 <= lo <= half,
                w.len() == t0.len(),
                reals.len() >= 1,
                forall|m: int|
                    0 <= m < reals.len() ==> half <= #[trigger] reals[m] && reals[m] < 2 * half,
                pending@.len() >= 1,
                forall|m: int|
                    0 <= m < pending@.len() ==> lo <= #[trigger] pending@[m] as int
                        && (pending@[m] as int) < 2 * lo,
                forall|a: int, b: int|
                    0 <= a < b < pending@.len() ==> #[trigger] pending@[a] < #[trigger] pending@[b],
                forall|j: int|
                    #![trigger has_index(pending@, j)]
                    #![trigger touches(reals, j)]
                    lo <= j < 2 * lo ==> (has_index(pending@, j) <==> touches(reals, j)),
                forall|j: int|
                    0 <= j < t0.len() ==> #[trigger] self.nodes()[j] == (if j >= lo && touches(
                        reals,
                        j,
                    ) {
                        rebuilt(w, reals, j)
                    } else {
                        w[j]
                    }),
            decreases lo,
        {
            proof {
                if lo == 1 {
                    assert(pending@[0] as int == 1);
                }
                assert(2 <= lo);
                assert(lo % 2 == 0);
                assert(is_pow2(lo / 2));
            }
            let mut new_pending: Vec<usize> = Vec::new();
            let mut k: usize = 0;
            while k < pending.len()
                invariant
                    self.tree@.len() == t0.len(),
                    t0.len() == tree_len,
                    tree_len as int == 2 * half,
                    1 <= half,
                    2 <= lo <= half,
                    lo % 2 == 0,
                    w.len() == t0.len(),
                    reals.len() >= 1,
                    forall|m: int|
                        0 <= m < reals.len() ==> half <= #[trigger] reals[m] && reals[m] < 2
                            * half,
                    pending@.len() >= 1,
                    k <= pending@.len(),
                    forall|m: int|
                        0 <= m < pending@.len() ==> lo <= #[trigger] pending@[m] as int
                            && (pending@[m] as int) < 2 * lo,
                    forall|a: int, b: int|
                        0 <= a < b < pending@.len() ==> #[trigger] pending@[a]
                            < #[trigger] pending@[b],
                    forall|j: int|
                        #![trigger has_index(pending@, j)]
                        #![trigger touches(reals, j)]
                        lo <= j < 2 * lo ==> (has_index(pending@, j) <==> touches(reals, j)),
                    (k == 0) == (new_pending@.len() == 0),
                    forall|m: int|
                        0 <= m < new_pending@.len() ==> lo / 2 <= #[trigger] new_pending@[m] as int
                            && (new_pending@[m] as int) < lo,
                    forall|a: int, b: int|
                        0 <= a < b < new_pending@.len() ==> #[trigger] new_pending@[a]
                            < #[trigger] new_pending@[b],
                    new_pending@.len() >= 1 && k < pending@.len()
                        ==> pending@[k as int] as int > 2 * new_pending@[new_pending@.len()
                        - 1] as int + 1,
                    forall|j: int|
                        #![trigger has_index(new_pending@, j)]
                        #![trigger has_parent_upto(pending@, k as int, j)]
                        has_index(new_pending@, j) <==> has_parent_upto(pending@, k as int, j),
                    forall|j: int|
                        0 <= j < t0.len() ==> #[trigger] self.nodes()[j] == (if (j >= lo
                            && touches(reals, j)) || has_index(new_pending@, j) {
                            rebuilt(w, reals, j)
                        } else {
                            w[j]
                        }),
                decreases pending@.len() - k,
            {
                let i = pending[k];
                let ghost old_np = new_pending@;
                proof {
                    assert(pending@[k as int] as int == i as int);
                    assert(has_index(pending@, i as int));
                    assert(touches(reals, i as int));
                }
                let sibling_index = Self::get_sibling_index(i);
                let consumed_two = if k + 1 < pending.len() {
                    pending[k + 1] == sibling_index
                } else {
                    false
                };
                let (left_node_index, right_node_index) =
                    self.get_left_and_right_node_indices_from_index(i);
                let parent_index = Self::get_parent_index(i);
                let ghost p = parent_index as int;
                proof {
                    // The parent is a touched internal node whose children
                    // already hold their recomputed values.
                    let m = choose|m: int|
                        0 <= m < reals.len() && is_anc(i as int, #[trigger] reals[m]);
                    lemma_anc_parent(i as int, reals[m]);
                    assert(touches(reals, p));
                    assert(left_node_index as int == 2 * p);
                    assert(right_node_index as int == 2 * p + 1);
                    assert(lo <= 2 * p && 2 * p + 1 < 2 * lo);
                    if has_index(new_pending@, 2 * p) {
                        let mq = choose|mq: int|
                            0 <= mq < new_pending@.len() && #[trigger] new_pending@[mq] as int == 2
                                * p;
                        assert(false);
                    }
                    if has_index(new_pending@, 2 * p + 1) {
                        let mq = choose|mq: int|
                            0 <= mq < new_pending@.len() && #[trigger] new_pending@[mq] as int == 2
                                * p + 1;
                        assert(false);
                    }
                    if !touches(reals, 2 * p) {
                        assert(self.nodes()[2 * p] == w[2 * p]);
                        assert(rebuilt(w, reals, 2 * p) == w[2 * p]);
                    }
                    if !touches(reals, 2 * p + 1) {
                        assert(self.nodes()[2 * p + 1] == w[2 * p + 1]);
                        assert(rebuilt(w, reals, 2 * p + 1) == w[2 * p + 1]);
                    }
                    assert(self.nodes()[2 * p] == rebuilt(w, reals, 2 * p));
                    assert(self.nodes()[2 * p + 1] == rebuilt(w, reals, 2 * p + 1));
                }
                let left_node = self.tree[left_node_index];
                let right_node = self.tree[right_node_index];
                let parent_hash = get_parent(&left_node, &right_node);
                let ghost before = self.nodes();
                proof {
                    assert(left_node@ == before[2 * p]);
                    assert(right_node@ == before[2 * p + 1]);
                    assert(parent_hash@ == rebuilt(w, reals, p));
                }
                self.tree[parent_index] = parent_hash;
                new_pending.push(parent_index);
                let ghost k2 = if consumed_two {
                    k as int + 2
                } else {
                    k as int + 1
                };
                proof {
                    assert(new_pending@ =~= old_np.push(parent_index));
                    assert(self.nodes() =~= before.update(p, parent_hash@));
                    assert(lo / 2 <= p < lo);
                    // The queue stays strictly ascending and ahead of the
                    // consumed prefix.
                    if old_np.len() >= 1 {
                        assert(pending@[k as int] as int > 2 * old_np[old_np.len() - 1] as int
                            + 1);
                        assert((old_np[old_np.len() - 1] as int) < p);
                        assert forall|a: int| 0 <= a < old_np.len() implies (
                        #[trigger] old_np[a] as int) < p by {
                            if a < old_np.len() - 1 {
                                assert(old_np[a] < old_np[old_np.len() - 1]);
                            }
                        }
                    }
                    if k2 < pending@.len() {
                        if consumed_two {
                            assert(pending@[k as int + 1] as int == sibling(i as int));
                            assert(pending@[k as int] < pending@[k as int + 1]);
                            assert(i as int % 2 == 0);
                            assert(sibling(i as int) == 2 * p + 1);
                            assert(pending@[k as int + 1] < pending@[k as int + 2]);
                        } else {
                            if k as int + 1 < pending@.len() {
                                assert(pending@[k as int + 1] as int != sibling(i as int));
                                assert(pending@[k as int] < pending@[k as int + 1]);
                                if i as int % 2 == 0 {
                                    assert(sibling(i as int) == i as int + 1);
                                    assert(pending@[k as int + 1] as int > 2 * p + 1);
                                } else {
                                    assert(i as int == 2 * p + 1);
                                }
                            }
                        }
                        assert(pending@[k2] as int > 2 * p + 1);
                    }
                    // Queue membership gains exactly the shared parent.
                    assert(pending@[k as int] as int / 2 == p);
                    if consumed_two {
                        assert(pending@[k as int + 1] as int / 2 == p);
                    }
                    assert forall|j: int| has_index(new_pending@, j) implies has_parent_upto(
                        pending@,
                        k2,
                        j,
                    ) by {
                        let m = choose|m: int|
                            0 <= m < new_pending@.len() && #[trigger] new_pending@[m] as int == j;
                        if m < old_np.len() {
                            assert(old_np[m] as int == j);
                            assert(has_index(old_np, j));
                            assert(has_parent_upto(pending@, k as int, j));
                            let mp = choose|mp: int|
                                0 <= mp < k as int && (#[trigger] pending@[mp] as int) / 2 == j;
                            assert(has_parent_upto(pending@, k2, j));
                        } else {
                            assert(j == p);
                            assert(has_parent_upto(pending@, k2, j));
                        }
                    }
                    assert forall|j: int| has_parent_upto(pending@, k2, j) implies has_index(
                        new_pending@,
                        j,
                    ) by {
                        let m = choose|m: int|
                            0 <= m < k2 && (#[trigger] pending@[m] as int) / 2 == j;
                        if m < k as int {
                            assert(has_parent_upto(pending@, k as int, j));
                            assert(has_index(old_np, j));
                            let mo = choose|mo: int|
                                0 <= mo < old_np.len() && #[trigger] old_np[mo] as int == j;
                            assert(new_pending@[mo] as int == j);
                            assert(has_index(new_pending@, j));
                        } else {
                            assert(j == p);
                            assert(new_pending@[new_pending@.len() - 1] as int == p);
                            assert(has_index(new_pending@, j));
                        }
                    }
                    // The tree now also holds the recomputed parent.
                    assert forall|j: int| 0 <= j < t0.len() implies #[trigger] self.nodes()[j]
                        == (if (j >= lo && touches(reals, j)) || has_index(new_pending@, j) {
                        rebuilt(w, reals, j)
                    } else {
                        w[j]
                    }) by {
                        if j == p {
                            assert(new_pending@[new_pending@.len() - 1] as int == p);
                            assert(has_index(new_pending@, j));
                            assert(self.nodes()[j] == rebuilt(w, reals, p));
                        } else {
                            assert(self.nodes()[j] == before[j]);
                            if has_index(new_pending@, j) {
                                let m = choose|m: int|
                                    0 <= m < new_pending@.len()
                                        && #[trigger] new_pending@[m] as int == j;
                                assert(m < old_np.len());
                                assert(has_index(old_np, j));
                            }
                            if has_index(old_np, j) {
                                let m = choose|m: int|
                                    0 <= m < old_np.len() && #[trigger] old_np[m] as int == j;
                                assert(new_pending@[m] as int == j);
                                assert(has_index(new_pending@, j));
                            }
                        }
                    }
                }
                if consumed_two {
                    k = k + 2;
                } else {
                    k = k + 1;
                }
            }
            let ghost old_pending = pending@;
            let ghost kk = k as int;
            pending = new_pending;
            proof {
                assert(kk == old_pending.len());
                assert forall|j: int| lo / 2 <= j < lo implies (has_index(pending@, j) <==> touches(
                    reals,
                    j,
                )) by {
                    if has_index(pending@, j) {
                        assert(has_parent_upto(old_pending, kk, j));
                        let m = choose|m: int|
                            0 <= m < kk && (#[trigger] old_pending[m] as int) / 2 == j;
                        assert(has_index(old_pending, old_pending[m] as int));
                        assert(touches(reals, old_pending[m] as int));
                        let mm = choose|mm: int|
                            0 <= mm < reals.len() && is_anc(
                                old_pending[m] as int,
                                #[trigger] reals[mm],
                            );
                        lemma_anc_parent(old_pending[m] as int, reals[mm]);
                        assert(touches(reals, j));
                    }
                    if touches(reals, j) {
                        let m = choose|m: int|
                            0 <= m < reals.len() && is_anc(j, #[trigger] reals[m]);
                        let x = reals[m];
                        lemma_anc_at_level(x, lo);
                        let c = choose|c: int| lo <= c < 2 * lo && #[trigger] is_anc(c, x);
                        lemma_anc_chain(j, c, x);
                        assert(is_anc(j, c / 2));
                        if j != c / 2 {
                            lemma_anc_lower(j, c / 2);
                            assert(false);
                        }
                        assert(touches(reals, c));
                        assert(has_index(old_pending, c));
                        let mc = choose|mc: int|
                            0 <= mc < old_pending.len() && #[trigger] old_pending[mc] as int == c;
                        assert((old_pending[mc] as int) / 2 == j);
                        assert(has_parent_upto(old_pending, kk, j));
                        assert(has_index(pending@, j));
                    }
                }
                assert forall|j: int| 0 <= j < t0.len() implies #[trigger] self.nodes()[j] == (
                if j >= lo / 2 && touches(reals, j) {
                    rebuilt(w, reals, j)
                } else {
                    w[j]
                }) by {
                    if has_index(pending@, j) {
                        let m = choose|m: int|
                            0 <= m < pending@.len() && #[trigger] pending@[m] as int == j;
                        assert(lo / 2 <= j < lo);
                    }
                    if j >= lo && touches(reals, j) {
                        assert(self.nodes()[j] == rebuilt(w, reals, j));
                    }
                }
                lo = lo / 2;
            }
        }
        proof {
            assert(lo <= pending@[0] as int);
            assert(lo == 1);
            assert forall|j: int| 0 <= j < t0.len() implies #[trigger] self.nodes()[j] == rebuilt(
                w,
                reals,
                j,
            ) by {
                if j == 0 {
                    assert(rebuilt(w, reals, 0) == w[0]);
                } else if !touches(reals, j) {
                    assert(self.nodes()[j] == w[j]);
                    assert(rebuilt(w, reals, j) == w[j]);
                }
            }
            assert(self.nodes() =~= rebuilt_all(w, reals));
        }
        Some(())
    }


    /// The parent of a node is always at half its index.
    fn get_parent_index(index: usize) -> (r: usize)
        ensures
            r == index as int / 2,
    {
        index / 2
    }

    /// The sibling's index differs from the node's own in the low bit alone.
    fn get_sibling_index(index: usize) -> (r: usize)
        requires
            index >= 2,
        ensures
            r == sibling(index as int),
    {
        proof {
            assert((index ^ 1) == (if index % 2 == 0 {
                index + 1
            } else {
                index - 1
            })) by (bit_vector);
        }
        index ^ 1
    }

    /// Left children always occupy the even index of a sibling pair.
    fn is_left(index: usize) -> (r: bool)
        ensures
            r <==> index % 2 == 0,
    {
        index % 2 == 0
    }

    /// Identify the sibling pair that the given node belongs to, in
    /// left-to-right order: the smaller index is the left member.
    fn get_left_and_right_node_indices_from_index(&self, current_index: usize) -> (r: (
        usize,
        usize,
    ))
        requires
            2 <= current_index,
            current_index < usize::MAX,
        ensures
            r.0 == pair_left(current_index as int),
            r.1 == pair_left(current_index as int) + 1,
    {
        let sibling_index = Self::get_sibling_index(current_index);
        if Self::is_left(current_index) {
            (current_index, sibling_index)
        } else {
            (sibling_index, current_index)
        }
    }
}

} // verus!
