//! The index generator: it names the slots of an array in in-order position,
//! one at a time, with a stack of slots in place of recursion.

use vstd::prelude::*;
use vstd::arithmetic::power2::lemma2_to64;
use vstd::arithmetic::power2::lemma_pow2_unfold;
use vstd::arithmetic::power2::pow2;
use crate::bi_tree::MAX_CAPACITY;
use crate::bi_tree::index_order;
use crate::bi_tree::left;
use crate::bi_tree::left_of;
use crate::bi_tree::right;
use crate::bi_tree::right_of;

verus! {

/// What a stack of slots still owes: from the top down, each slot followed
/// by the in-order sequence of its right subtree.
pub open spec fn pending(cap: nat, stack: Seq<usize>) -> Seq<int>
    decreases stack.len(),
{
    if stack.len() == 0 {
        Seq::empty()
    } else {
        seq![stack.last() as int] + index_order(cap, right_of(stack.last() as int)) + pending(
            cap,
            stack.drop_last(),
        )
    }
}

/// What the generator is about to do.
pub enum Phase {
    /// It holds a slot from which it goes down to the left.
    Descending,
    /// It has gone down as far as it can and takes the next slot from the
    /// stack.
    Backtracking,
    /// It holds no slot and the stack is empty: nothing is left.
    Done,
}

/// A generator of the slot indices of an array, in in-order position.
pub struct BiTreeIndexIter {
    capacity: usize,
    stack: Vec<usize>,
    current: Option<usize>,
}

impl BiTreeIndexIter {
    /// The number of slots of the array that the generator walks.
    pub closed spec fn cap(&self) -> nat {
        self.capacity as nat
    }

    /// The indices that are still to come, in the order in which they come.
    pub closed spec fn remaining(&self) -> Seq<int> {
        (match self.current {
            Some(c) => index_order(self.cap(), c as int),
            None => Seq::empty(),
        }) + pending(self.cap(), self.stack@)
    }

    /// What the generator is about to do.
    pub closed spec fn phase(&self) -> Phase {
        if self.current is Some {
            Phase::Descending
        } else if self.stack@.len() > 0 {
            Phase::Backtracking
        } else {
            Phase::Done
        }
    }

    /// The number of slots on the stack.
    pub closed spec fn depth(&self) -> nat {
        self.stack@.len()
    }

    /// How far the descent to the left can still go.
    pub closed spec fn descent(&self) -> nat {
        match self.current {
            Some(c) => (self.capacity - c + 1) as nat,
            None => 0,
        }
    }

    /// The generator is valid: the array has at least one slot and at most
    /// `MAX_CAPACITY`, every slot that the generator holds lies inside, and
    /// each slot on the stack lies at least as deep in the tree as it lies
    /// high on the stack.
    pub closed spec fn wf(&self) -> bool {
        &&& 1 <= self.capacity <= MAX_CAPACITY
        &&& self.current matches Some(c) ==> c < self.capacity && pow2(self.stack@.len()) <= c + 1
        &&& forall|k: int|
            0 <= k < self.stack@.len() ==> #[trigger] self.stack@[k] < self.capacity && pow2(
                k as nat,
            ) <= self.stack@[k] + 1
    }

    /// The generator is done exactly when no index is left, and its stack
    /// is never deeper than the tree: a stack of `d` slots needs an array of
    /// at least two to the power of `d - 1` slots.
    pub proof fn lemma_phase_and_depth(&self)
        requires
            self.wf(),
        ensures
            self.phase() == Phase::Done <==> self.remaining().len() == 0,
            self.depth() > 0 ==> pow2((self.depth() - 1) as nat) <= self.cap(),
    {
        if self.stack@.len() > 0 {
            assert(self.stack@[self.stack@.len() - 1] < self.capacity);
        }
    }

    /// A generator for an array of `capacity` slots, about to start.
    pub fn new(capacity: usize) -> (indexer: Self)
        requires
            1 <= capacity <= MAX_CAPACITY,
        ensures
            indexer.wf(),
            indexer.cap() == capacity,
            indexer.remaining() == index_order(capacity as nat, 0),
            indexer.phase() == Phase::Descending,
            indexer.depth() == 0,
    {
        proof {
            lemma2_to64();
        }
        Self { capacity, stack: Vec::new(), current: Some(0) }
    }

    /// The left child of `node`, if it lies inside the array.
    pub fn left(&self, node: usize) -> (child: Option<usize>)
        requires
            2 * node + 1 <= usize::MAX,
        ensures
            child == if left_of(node as int) < self.cap() {
                Some(left_of(node as int) as usize)
            } else {
                None
            },
    {
        let index = left(node);
        if index < self.capacity {
            Some(index)
        } else {
            None
        }
    }

    /// The right child of `node`, if it lies inside the array.
    pub fn right(&self, node: usize) -> (child: Option<usize>)
        requires
            2 * node + 2 <= usize::MAX,
        ensures
            child == if right_of(node as int) < self.cap() {
                Some(right_of(node as int) as usize)
            } else {
                None
            },
    {
        let index = right(node);
        if index < self.capacity {
            Some(index)
        } else {
            None
        }
    }

    /// The next index in in-order position, or `None` when all have been
    /// given.
    pub fn next(&mut self) -> (index: Option<usize>)
        requires
            old(self).wf(),
        ensures
            final(self).wf(),
            final(self).cap() == old(self).cap(),
            match index {
                Some(i) => {
                    &&& old(self).remaining().len() > 0
                    &&& i as int == old(self).remaining()[0]
                    &&& final(self).remaining() == old(self).remaining().drop_first()
                },
                None => {
                    &&& old(self).remaining().len() == 0
                    &&& final(self).remaining().len() == 0
                    &&& old(self).phase() == Phase::Done
                    &&& final(self).phase() == Phase::Done
                },
            },
    {
        loop
            invariant
                old(self).wf(),
                self.wf(),
                self.cap() == old(self).cap(),
                self.remaining() == old(self).remaining(),
            decreases self.descent(),
        {
            if let Some(node) = self.current {
                let ghost before = self.stack@;
                self.stack.push(node);
                self.current = self.left(node);
                proof {
                    lemma_pow2_unfold(self.stack@.len());
                    let cap = self.cap();
                    let l = index_order(cap, left_of(node as int));
                    let r = index_order(cap, right_of(node as int));
                    assert(self.stack@.drop_last() =~= before);
                    assert(self.stack@.last() == node);
                    assert(pending(cap, self.stack@) == seq![node as int] + r + pending(
                        cap,
                        before,
                    ));
                    assert(index_order(cap, node as int) == l + seq![node as int] + r);
                    assert(self.remaining() =~= old(self).remaining());
                }
            } else if let Some(node) = self.stack.pop() {
                self.current = self.right(node);
                proof {
                    lemma_pow2_unfold((self.stack@.len() + 1) as nat);
                    assert(self.remaining() =~= old(self).remaining().drop_first());
                }
                return Some(node);
            } else {
                proof {
                    old(self).lemma_phase_and_depth();
                }
                return None;
            }
        }
    }
}

} // verus!
