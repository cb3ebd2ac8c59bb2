//! What holds of every valid tree, whatever was stored in it and in
//! whatever order.

use vstd::prelude::*;
use vstd::arithmetic::power2::lemma2_to64;
use vstd::arithmetic::power2::lemma_pow2_unfold;
use vstd::arithmetic::power2::pow2;
use crate::bi_tree::descends;
use crate::bi_tree::left_of;
use crate::bi_tree::lemma_descends_from_root;
use crate::bi_tree::parent_of;
use crate::bi_tree::right_of;
use crate::bi_tree::slots_from;
use crate::search::lemma_grown_capacity;
use crate::search::lemma_inserted;
use crate::search::lemma_key_slot;
use crate::search::lemma_lookup_is_map;
use crate::search::lemma_padded_is_search_tree;
use crate::search::lemma_padded_keeps;
use crate::search::lemma_walk_descends;
use crate::search::lemma_walk_stops;
use crate::slots::as_map;
use crate::slots::ascending;
use crate::slots::doublings;
use crate::slots::from_subtree;
use crate::slots::grown;
use crate::slots::grown_capacity;
use crate::slots::in_order;
use crate::slots::inserted;
use crate::slots::is_search_tree;
use crate::slots::lookup;
use crate::slots::occupied;
use crate::slots::occupied_slots;
use crate::slots::target;
use crate::traversal::lemma_in_order_ascending;
use crate::traversal::lemma_in_order_holds;
use crate::traversal::lemma_in_order_within;
use crate::tree::BinaryTree;
use crate::tree::slot_cloned;

verus! {

/// Parent and child undo each other: the parent of either child of a slot
/// is that slot, and a slot other than the root is the left or the right
/// child of its parent, the right one exactly if its index is even.
pub proof fn law_parent_and_child(i: int)
    requires
        0 <= i,
    ensures
        parent_of(left_of(i)) == i,
        parent_of(right_of(i)) == i,
        left_of(i) % 2 == 1,
        right_of(i) % 2 == 0,
        0 < i ==> 0 <= parent_of(i) < i,
        0 < i ==> (i == left_of(parent_of(i)) || i == right_of(parent_of(i))),
        0 < i ==> (i == right_of(parent_of(i)) <==> i % 2 == 0),
{
}

/// The consuming traversal of a valid tree yields the keys in strictly
/// ascending order.
pub proof fn law_traversal_ascending<K: Ord, V>(tree: BinaryTree<K, V>)
    requires
        tree.wf(),
    ensures
        ascending(in_order(tree@)),
{
    lemma_in_order_ascending(tree@, 0);
}

/// The consuming traversal of a valid tree yields exactly the pairs that
/// the tree holds.
pub proof fn law_traversal_complete<K: Ord, V>(tree: BinaryTree<K, V>, key: K, value: V)
    requires
        tree.wf(),
    ensures
        in_order(tree@).contains((key, value)) <==> tree.entries().contains_pair(key, value),
{
    let s = tree@;
    if in_order(s).contains((key, value)) {
        lemma_in_order_within(s, 0);
        let j = choose|j: int| #[trigger]
            occupied(s, j) && descends(j, 0) && s[j] == Some((key, value));
        lemma_key_slot(s, j);
        lemma_lookup_is_map(s, key);
    }
    if tree.entries().contains_pair(key, value) {
        lemma_lookup_is_map(s, key);
        let j = target(s, key);
        lemma_walk_stops(s, key, 0);
        lemma_descends_from_root(j);
        lemma_in_order_holds(s, j, 0);
    }
}

/// After a key has been stored with a value, the search for that key finds
/// that value.
pub proof fn law_insert_then_get<K: Ord, V>(tree: BinaryTree<K, V>, key: K, value: V)
    requires
        tree.wf(),
    ensures
        lookup(inserted(tree@, key, value), key) == Some(value),
{
    lemma_inserted(tree@, key, value);
    lemma_lookup_is_map(inserted(tree@, key, value), key);
}

/// Storing a key changes what the search finds for no other key, whether
/// the array had to grow or not.
pub proof fn law_insert_keeps_others<K: Ord, V>(
    tree: BinaryTree<K, V>,
    key: K,
    value: V,
    other: K,
)
    requires
        tree.wf(),
        other != key,
    ensures
        lookup(inserted(tree@, key, value), other) == lookup(tree@, other),
{
    lemma_inserted(tree@, key, value);
    lemma_lookup_is_map(inserted(tree@, key, value), other);
    lemma_lookup_is_map(tree@, other);
}

/// Storing a key that is present puts the new value in the place of the old
/// one: the same slots are occupied as before, and the array is as long as
/// before.
pub proof fn law_update_in_place<K: Ord, V>(tree: BinaryTree<K, V>, key: K, value: V)
    requires
        tree.wf(),
        tree.entries().contains_key(key),
    ensures
        inserted(tree@, key, value) == tree@.update(target(tree@, key), Some((key, value))),
        inserted(tree@, key, value).len() == tree@.len(),
        occupied_slots(inserted(tree@, key, value)) == occupied_slots(tree@),
        as_map(inserted(tree@, key, value)).dom() == tree.entries().dom(),
        lookup(inserted(tree@, key, value), key) == Some(value),
{
    lemma_lookup_is_map(tree@, key);
    lemma_inserted(tree@, key, value);
    law_insert_then_get(tree, key, value);
}

/// Storing a key that is absent occupies one more slot, the slot of that
/// key.
pub proof fn law_insert_fresh<K: Ord, V>(tree: BinaryTree<K, V>, key: K, value: V)
    requires
        tree.wf(),
        !tree.entries().contains_key(key),
    ensures
        !occupied(tree@, target(tree@, key)),
        occupied_slots(inserted(tree@, key, value)) == occupied_slots(tree@).insert(
            target(tree@, key),
        ),
{
    lemma_lookup_is_map(tree@, key);
    lemma_grown_capacity(tree@.len(), target(tree@, key));
    lemma_walk_descends(tree@, key, 0);
}

/// Growth loses and changes nothing: every slot keeps its content at its
/// index, the new slots are empty, the tree stays a search tree, and every
/// search finds what it found before.
pub proof fn law_growth_keeps_entries<K: Ord, V>(tree: BinaryTree<K, V>, key: K)
    requires
        tree.wf(),
    ensures
        grown(tree@).len() == 2 * tree@.len(),
        forall|i: int| 0 <= i < tree@.len() ==> grown(tree@)[i] == tree@[i],
        forall|i: int| tree@.len() <= i < grown(tree@).len() ==> grown(tree@)[i] is None,
        is_search_tree(grown(tree@)),
        as_map(grown(tree@)) == tree.entries(),
        lookup(grown(tree@), key) == lookup(tree@, key),
{
    lemma_padded_is_search_tree(tree@, 2 * tree@.len());
    lemma_padded_keeps(tree@, 2 * tree@.len());
}

/// The length `cap`, doubled until slot `t` lies inside, is `cap` times a
/// power of two, and no doubling was made that was not needed.
pub proof fn law_capacity_doubles(cap: nat, t: int)
    requires
        1 <= cap,
    ensures
        grown_capacity(cap, t) == cap * pow2(doublings(cap, t)),
        t < grown_capacity(cap, t),
        doublings(cap, t) > 0 ==> grown_capacity(cap, t) <= 2 * t,
    decreases slots_from((t + 1) as nat, cap as int),
{
    if cap <= t {
        law_capacity_doubles(2 * cap, t);
        let k = doublings(2 * cap, t);
        assert(pow2(k + 1) == 2 * pow2(k)) by {
            lemma_pow2_unfold(k + 1);
        }
        assert((2 * cap) * pow2(k) == cap * (2 * pow2(k))) by (nonlinear_arith);
    } else {
        assert(doublings(cap, t) == 0);
        assert(pow2(0) == 1) by {
            lemma2_to64();
        }
    }
}

/// After a key has been stored, the array has the least length, among the
/// old length doubled some number of times, that holds the slot of the key.
pub proof fn law_insert_capacity<K: Ord, V>(tree: BinaryTree<K, V>, key: K, value: V)
    requires
        tree.wf(),
    ensures
        inserted(tree@, key, value).len() == tree@.len() * pow2(
            doublings(tree@.len(), target(tree@, key)),
        ),
        target(tree@, key) < tree@.len() ==> inserted(tree@, key, value).len() == tree@.len(),
{
    lemma_inserted(tree@, key, value);
    law_capacity_doubles(tree@.len(), target(tree@, key));
}

/// One insert makes the array at most four times as long, so that a key can
/// always be stored while four times the length is within `MAX_CAPACITY`.
pub proof fn law_insert_growth_bounded<K: Ord, V>(tree: BinaryTree<K, V>, key: K, value: V)
    requires
        tree.wf(),
    ensures
        target(tree@, key) <= 2 * tree@.len(),
        grown_capacity(tree@.len(), target(tree@, key)) <= 4 * tree@.len(),
        inserted(tree@, key, value).len() <= 4 * tree@.len(),
{
    let n = tree@.len();
    let t = target(tree@, key);
    lemma_walk_stops(tree@, key, 0);
    lemma_inserted(tree@, key, value);
    if n <= t {
        lemma_grown_capacity(2 * n, t);
    }
}

/// Where a clone of a key is that key and a clone of a value is that value,
/// a clone of a tree has the slots of the tree, and is valid if the tree is.
pub proof fn law_clone_keeps_slots<K: Ord + Clone, V: Clone>(
    tree: BinaryTree<K, V>,
    copy: BinaryTree<K, V>,
)
    requires
        copy@.len() == tree@.len(),
        forall|i: int| 0 <= i < tree@.len() ==> slot_cloned(tree@[i], #[trigger] copy@[i]),
        forall|a: K, b: K| cloned(a, b) ==> a == b,
        forall|a: V, b: V| cloned(a, b) ==> a == b,
    ensures
        copy@ == tree@,
        tree.wf() ==> copy.wf(),
{
    assert(copy@ =~= tree@);
}

/// The search for a key that the tree does not hold finds nothing.
pub proof fn law_missing_key<K: Ord, V>(tree: BinaryTree<K, V>, key: K)
    requires
        tree.wf(),
        !tree.entries().contains_key(key),
    ensures
        lookup(tree@, key) is None,
{
    lemma_lookup_is_map(tree@, key);
}

/// A tree whose slots are all empty holds no key.
pub proof fn law_empty_tree<K: Ord, V>(tree: BinaryTree<K, V>, key: K)
    requires
        forall|i: int| 0 <= i < tree@.len() ==> tree@[i] is None,
    ensures
        tree.entries() == Map::<K, V>::empty(),
        lookup(tree@, key) is None,
        in_order(tree@).len() == 0,
{
    lemma_in_order_within(tree@, 0);
    if in_order(tree@).len() > 0 {
        assert(from_subtree(tree@, in_order(tree@)[0], 0));
    }
}

} // verus!
