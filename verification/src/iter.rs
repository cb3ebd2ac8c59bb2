//! The consuming traversal: it takes the pairs out of the tree one by one,
//! in in-order position, and leaves the slots empty behind it.

use vstd::prelude::*;
use crate::bi_tree::index_order;
use crate::bi_tree::lemma_descends_from_root;
use crate::bi_tree::lemma_index_order_distinct;
use crate::bi_tree::lemma_index_order_holds;
use crate::bi_tree::lemma_index_order_within;
use crate::index_iter::BiTreeIndexIter;
use crate::slots::ascending;
use crate::slots::entries_at;
use crate::slots::in_order;
use crate::slots::occupied;
use crate::traversal::lemma_entries_at_update;
use crate::traversal::lemma_in_order_ascending;
use crate::traversal::lemma_in_order_by_index;
use crate::tree::BinaryTree;

verus! {

/// Iterates over a `BinaryTree` in order, consuming it.
pub struct BinaryTreeIter<K, V> {
    tree: BinaryTree<K, V>,
    indexer: BiTreeIndexIter,
}

impl<K: Ord, V> BinaryTree<K, V> {
    /// Turns the tree into the traversal of its pairs in in-order position,
    /// which is the ascending order of their keys.
    pub fn into_iter(self) -> (iter: BinaryTreeIter<K, V>)
        requires
            self.wf(),
        ensures
            iter.wf(),
            iter.slots() == self@,
            iter.remaining() == in_order(self@),
            ascending(iter.remaining()),
    {
        proof {
            lemma_in_order_ascending(self@, 0);
            lemma_in_order_by_index(self@, 0);
            assert(index_order(self@.len(), 0).skip(0) =~= index_order(self@.len(), 0));
            assert forall|j: int| occupied(self@, j) implies index_order(self@.len(), 0).contains(
                j,
            ) by {
                lemma_descends_from_root(j);
                lemma_index_order_holds(self@.len(), j, 0);
            }
        }
        BinaryTreeIter { indexer: BiTreeIndexIter::new(self.capacity()), tree: self }
    }
}

impl<K, V> BinaryTreeIter<K, V> {
    /// The slots of the tree that is being consumed, as they are now.
    pub closed spec fn slots(&self) -> Seq<Option<(K, V)>> {
        self.tree@
    }

    /// The pairs that are still to come, in the order in which they come.
    pub closed spec fn remaining(&self) -> Seq<(K, V)> {
        entries_at(self.tree@, self.indexer.remaining())
    }

    /// The traversal is valid: its generator is, the generator walks an
    /// array as long as that of the tree, the indices still to come are an
    /// end piece of the in-order sequence of that array, and every slot that
    /// is still occupied is among them.
    pub closed spec fn wf(&self) -> bool {
        &&& self.indexer.wf()
        &&& self.indexer.cap() == self.tree@.len()
        &&& forall|j: int| occupied(self.tree@, j) ==> self.indexer.remaining().contains(j)
        &&& exists|n: int|
            0 <= n <= index_order(self.tree@.len(), 0).len() && self.indexer.remaining()
                == #[trigger] index_order(self.tree@.len(), 0).skip(n)
    }

    /// The next pair in in-order position, taken out of the tree, or `None`
    /// when none is left.
    pub fn next(&mut self) -> (item: Option<(K, V)>)
        requires
            old(self).wf(),
        ensures
            final(self).wf(),
            match item {
                Some(kv) => {
                    &&& old(self).remaining().len() > 0
                    &&& kv == old(self).remaining()[0]
                    &&& final(self).remaining() == old(self).remaining().drop_first()
                    &&& exists|i: int|
                        0 <= i < old(self).slots().len() && old(self).slots()[i] == Some(kv)
                            && final(self).slots() == #[trigger] old(self).slots().update(i, None)
                },
                None => {
                    &&& old(self).remaining().len() == 0
                    &&& final(self).remaining().len() == 0
                    &&& final(self).slots() == old(self).slots()
                    &&& forall|i: int|
                        0 <= i < final(self).slots().len() ==> final(self).slots()[i] is None
                },
            },
    {
        loop
            invariant
                self.wf(),
                self.remaining() == old(self).remaining(),
                self.slots() == old(self).slots(),
            decreases self.indexer.remaining().len(),
        {
            let ghost slots = self.tree@;
            let ghost indices = self.indexer.remaining();
            let ghost full = index_order(slots.len(), 0);
            let ghost n = choose|n: int|
                0 <= n <= full.len() && indices == #[trigger] full.skip(n);
            assert(forall|j: int| occupied(slots, j) ==> indices.contains(j));
            match self.indexer.next() {
                Some(index) => {
                    proof {
                        lemma_index_order_within(slots.len(), 0);
                        lemma_index_order_distinct(slots.len(), 0);
                        assert(indices.drop_first() =~= full.skip(n + 1));
                        assert(!indices.drop_first().contains(index as int));
                        lemma_entries_at_update(slots, indices.drop_first(), index as int, None);
                        assert forall|j: int|
                            occupied(slots, j) && j != index implies indices.drop_first().contains(
                            j,
                        ) by {
                            assert(indices.contains(j));
                            let k = choose|k: int| 0 <= k < indices.len() && indices[k] == j;
                            assert(indices.drop_first()[k - 1] == j);
                        }
                    }
                    if let Some(res) = self.tree.take_slot(index) {
                        return Some(res);
                    }
                },
                None => {
                    proof {
                        assert(self.indexer.remaining() =~= full.skip(full.len() as int));
                        assert forall|i: int| 0 <= i < slots.len() implies slots[i] is None by {
                            if occupied(slots, i) {
                                assert(indices.contains(i));
                            }
                        }
                    }
                    return None;
                },
            }
        }
    }
}

} // verus!
