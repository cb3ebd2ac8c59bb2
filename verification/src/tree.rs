//! The tree itself: one array of slots, searched and filled by index
//! arithmetic, doubled when a key falls outside it.

use vstd::prelude::*;
use crate::bi_tree::MAX_CAPACITY;
use crate::bi_tree::left;
use crate::bi_tree::right;
use crate::bi_tree::slots_from;
use crate::order::lemma_operators_agree;
use crate::order::strict_total_order;
use crate::search::lemma_grown_capacity;
use crate::search::lemma_inserted;
use crate::search::lemma_lookup_is_map;
use crate::search::lemma_padded_is_search_tree;
use crate::search::lemma_padded_keeps;
use crate::slots::as_map;
use crate::slots::grown;
use crate::slots::grown_capacity;
use crate::slots::inserted;
use crate::slots::is_search_tree;
use crate::slots::lookup;
use crate::slots::padded;
use crate::slots::shown;
use crate::slots::target;
use crate::slots::walk;

verus! {

/// A binary search tree kept in an array of optional key-value pairs.
pub struct BinaryTree<K, V> {
    slots: Vec<Option<(K, V)>>,
}

/// Slot `b` is what cloning slot `a` may give: empty if `a` is empty, else a
/// clone of the key with a clone of the value.
pub open spec fn slot_cloned<K: Clone, V: Clone>(a: Option<(K, V)>, b: Option<(K, V)>) -> bool {
    match (a, b) {
        (Some(x), Some(y)) => cloned(x.0, y.0) && cloned(x.1, y.1),
        (None, None) => true,
        _ => false,
    }
}

impl<K: Clone, V: Clone> Clone for BinaryTree<K, V> {
    /// A tree of the same length whose slots are clones of the slots of
    /// this one, each at its index.
    fn clone(&self) -> (copy: Self)
        ensures
            copy@.len() == self@.len(),
            forall|i: int| 0 <= i < self@.len() ==> slot_cloned(self@[i], #[trigger] copy@[i]),
    {
        let mut slots: Vec<Option<(K, V)>> = Vec::with_capacity(self.slots.len());
        let mut index: usize = 0;
        while index < self.slots.len()
            invariant
                index <= self.slots@.len(),
                slots@.len() == index,
                forall|i: int| 0 <= i < index ==> slot_cloned(self.slots@[i], #[trigger] slots@[i]),
            decreases self.slots@.len() - index,
        {
            let cell = match &self.slots[index] {
                Some(kv) => Some((kv.0.clone(), kv.1.clone())),
                None => None,
            };
            slots.push(cell);
            index += 1;
        }
        BinaryTree { slots }
    }
}

impl<K, V> View for BinaryTree<K, V> {
    type V = Seq<Option<(K, V)>>;

    /// The slots of the tree, in array order.
    closed spec fn view(&self) -> Seq<Option<(K, V)>> {
        self.slots@
    }
}

impl<K, V> BinaryTree<K, V> {
    /// The number of slots, occupied or not.
    pub fn capacity(&self) -> (n: usize)
        ensures
            n == self@.len(),
    {
        self.slots.len()
    }

    /// The slots as an inspection shows them, in array order: each occupied
    /// slot with its pair, and with `alternate` each empty slot as `None`.
    pub fn debug_entries(&self, alternate: bool) -> (list: Vec<Option<&(K, V)>>)
        ensures
            list@.len() == shown(self@, alternate).len(),
            forall|i: int|
                0 <= i < list@.len() ==> #[trigger] list@[i] == match shown(self@, alternate)[i] {
                    Some(kv) => Some(&kv),
                    None => None,
                },
    {
        let mut list: Vec<Option<&(K, V)>> = Vec::new();
        let mut index: usize = 0;
        while index < self.slots.len()
            invariant
                index <= self.slots@.len(),
                list@.len() == shown(self@.take(index as int), alternate).len(),
                forall|i: int|
                    0 <= i < list@.len() ==> #[trigger] list@[i] == match shown(
                        self@.take(index as int),
                        alternate,
                    )[i] {
                        Some(kv) => Some(&kv),
                        None => None,
                    },
            decreases self.slots@.len() - index,
        {
            proof {
                assert(self@.take(index + 1).drop_last() =~= self@.take(index as int));
            }
            let entry = self.slots[index].as_ref();
            if alternate || entry.is_some() {
                list.push(entry);
            }
            index += 1;
        }
        proof {
            assert(self@.take(index as int) =~= self@);
        }
        list
    }

    /// Empties slot `index` and hands out what it held.
    pub(crate) fn take_slot(&mut self, index: usize) -> (cell: Option<(K, V)>)
        requires
            index < old(self)@.len(),
        ensures
            cell == old(self)@[index as int],
            final(self)@ == old(self)@.update(index as int, None),
    {
        self.slots[index].take()
    }
}

impl<K: Ord, V> BinaryTree<K, V> {
    /// The tree is valid: its keys are totally ordered, it has at least one
    /// slot and no more than `MAX_CAPACITY`, and its occupied slots form a
    /// binary search tree.
    pub open spec fn wf(&self) -> bool {
        &&& strict_total_order::<K>()
        &&& 1 <= self@.len() <= MAX_CAPACITY
        &&& is_search_tree(self@)
    }

    /// The pairs that the tree holds, as a map from key to value.
    pub open spec fn entries(&self) -> Map<K, V> {
        as_map(self@)
    }

    /// An empty tree with eight slots.
    pub fn new() -> (tree: Self)
        requires
            strict_total_order::<K>(),
        ensures
            tree.wf(),
            tree@ == Seq::new(8, |i: int| None::<(K, V)>),
            tree.entries() == Map::<K, V>::empty(),
    {
        Self::with_capacity(8)
    }

    /// An empty tree with `capacity` slots, and with one slot if `capacity`
    /// is zero.
    pub fn with_capacity(capacity: usize) -> (tree: Self)
        requires
            strict_total_order::<K>(),
            capacity <= MAX_CAPACITY,
        ensures
            tree.wf(),
            tree@ == Seq::new(
                if capacity == 0 {
                    1
                } else {
                    capacity as nat
                },
                |i: int| None::<(K, V)>,
            ),
            tree.entries() == Map::<K, V>::empty(),
    {
        let capacity = capacity.max(1);
        let mut slots: Vec<Option<(K, V)>> = Vec::new();
        while slots.len() < capacity
            invariant
                slots.len() <= capacity,
                forall|i: int| 0 <= i < slots.len() ==> slots@[i] is None,
            decreases capacity - slots.len(),
        {
            slots.push(None);
        }
        let tree = BinaryTree { slots };
        assert(tree@ =~= Seq::new(capacity as nat, |i: int| None::<(K, V)>));
        assert(tree.entries() =~= Map::<K, V>::empty());
        tree
    }

    /// The slot that belongs to `key`: the one that holds it, or the first
    /// empty or missing slot on the way to it.
    pub fn find_index(&self, key: &K) -> (index: usize)
        requires
            self.wf(),
        ensures
            index == target(self@, *key),
    {
        let mut index: usize = 0;
        while index < self.slots.len()
            invariant
                self.wf(),
                index <= 2 * self@.len(),
                walk(self@, *key, index as int) == target(self@, *key),
            ensures
                index == target(self@, *key),
            decreases 2 * self@.len() - index,
        {
            match &self.slots[index] {
                None => {
                    break ;
                },
                Some((r_key, _)) => {
                    proof {
                        lemma_operators_agree::<K>();
                    }
                    if *r_key == *key {
                        break ;
                    } else {
                        index = if *key < *r_key {
                            left(index)
                        } else {
                            right(index)
                        }
                    }
                },
            }
        }
        index
    }

    /// Stores `value` under `key` and returns the value that was stored
    /// under it before, if there was one. The array is doubled as often as
    /// it takes for the slot of `key` to lie inside it.
    pub fn insert(&mut self, key: K, value: V) -> (prior: Option<V>)
        requires
            old(self).wf(),
            grown_capacity(old(self)@.len(), target(old(self)@, key)) <= MAX_CAPACITY,
        ensures
            final(self).wf(),
            final(self)@ == inserted(old(self)@, key, value),
            final(self)@.len() == grown_capacity(old(self)@.len(), target(old(self)@, key)),
            final(self).entries() == old(self).entries().insert(key, value),
            prior == lookup(old(self)@, key),
            prior == if old(self).entries().contains_key(key) {
                Some(old(self).entries()[key])
            } else {
                None::<V>
            },
        decreases slots_from((target(old(self)@, key) + 1) as nat, old(self)@.len() as int),
    {
        let index = self.find_index(&key);
        proof {
            lemma_inserted(self@, key, value);
            lemma_lookup_is_map(self@, key);
            lemma_grown_capacity(self@.len(), index as int);
        }
        if index < self.slots.len() {
            let cell = &mut self.slots[index];
            let prior = cell.take();
            *cell = Some((key, value));
            proof {
                assert(self@ =~= inserted(old(self)@, key, value));
            }
            match prior {
                Some(kv) => Some(kv.1),
                None => None,
            }
        } else {
            proof {
                lemma_grown_capacity(2 * self@.len(), index as int);
                lemma_padded_keeps(self@, 2 * self@.len());
                assert(target(grown(self@), key) == target(self@, key));
                assert(lookup(grown(self@), key) == lookup(self@, key));
                assert(inserted(grown(self@), key, value) =~= inserted(self@, key, value));
            }
            self.grow();
            self.insert(key, value)
        }
    }

    /// Doubles the number of slots. Every slot keeps its index and its
    /// content; the new slots are empty.
    pub fn grow(&mut self)
        requires
            old(self).wf(),
            2 * old(self)@.len() <= MAX_CAPACITY,
        ensures
            final(self).wf(),
            final(self)@ == grown(old(self)@),
            final(self)@.len() == 2 * old(self)@.len(),
    {
        let capacity = self.capacity();
        let new_capacity = capacity * 2;
        let mut slots: Vec<Option<(K, V)>> = Vec::with_capacity(new_capacity);
        let mut index: usize = 0;
        while index < capacity
            invariant
                capacity == self.slots@.len() == old(self)@.len(),
                index <= capacity,
                slots@ == old(self)@.take(index as int),
                forall|i: int| index <= i < capacity ==> self.slots@[i] == old(self)@[i],
            decreases capacity - index,
        {
            let cell = self.slots[index].take();
            slots.push(cell);
            index += 1;
        }
        while index < new_capacity
            invariant
                capacity == old(self)@.len(),
                capacity <= index <= new_capacity,
                slots@ == padded(old(self)@, index as nat),
            decreases new_capacity - index,
        {
            slots.push(None);
            index += 1;
            assert(slots@ =~= padded(old(self)@, index as nat));
        }
        self.slots = slots;
        proof {
            lemma_padded_is_search_tree(old(self)@, new_capacity as nat);
        }
    }

    /// The value stored under `key`, if there is one.
    pub fn get(&self, key: &K) -> (found: Option<&V>)
        requires
            self.wf(),
        ensures
            found == match lookup(self@, *key) {
                Some(v) => Some(&v),
                None => None,
            },
            found == if self.entries().contains_key(*key) {
                Some(&self.entries()[*key])
            } else {
                None
            },
    {
        proof {
            lemma_lookup_is_map(self@, *key);
        }
        let index = self.find_index(key);
        if index < self.slots.len() {
            match &self.slots[index] {
                Some(kv) => Some(&kv.1),
                None => None,
            }
        } else {
            None
        }
    }
}

} // verus!
