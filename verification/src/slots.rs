//! The mathematical model of the tree: a sequence of slots, each empty or
//! holding one key-value pair, read as a binary search tree through the
//! index arithmetic of `bi_tree`.

use vstd::prelude::*;
use crate::bi_tree::descends;
use crate::bi_tree::left_of;
use crate::bi_tree::parent_of;
use crate::bi_tree::right_of;
use crate::bi_tree::slots_from;
use crate::order::less;

verus! {


/// Slot `i` exists in `s` and holds a pair.
pub open spec fn occupied<K, V>(s: Seq<Option<(K, V)>>, i: int) -> bool {
    0 <= i < s.len() && s[i] is Some
}

/// The key held by the occupied slot `i`.
pub open spec fn key_at<K, V>(s: Seq<Option<(K, V)>>, i: int) -> K {
    s[i].unwrap().0
}

/// The value held by the occupied slot `i`.
pub open spec fn value_at<K, V>(s: Seq<Option<(K, V)>>, i: int) -> V {
    s[i].unwrap().1
}

/// If slot `j` is occupied and is not the root, its parent is occupied.
pub open spec fn rooted_at<K, V>(s: Seq<Option<(K, V)>>, j: int) -> bool {
    0 < j && occupied(s, j) ==> occupied(s, parent_of(j))
}

/// No occupied slot hangs under an empty one.
pub open spec fn rooted<K, V>(s: Seq<Option<(K, V)>>) -> bool {
    forall|j: int| #[trigger] rooted_at(s, j)
}

/// If `j` lies under the left child of `i` its key comes before that of
/// `i`; if it lies under the right child, after.
pub open spec fn ordered_at<K: Ord, V>(s: Seq<Option<(K, V)>>, i: int, j: int) -> bool {
    &&& descends(j, left_of(i)) ==> less(key_at(s, j), key_at(s, i))
    &&& descends(j, right_of(i)) ==> less(key_at(s, i), key_at(s, j))
}

/// Every occupied slot has smaller keys throughout its left subtree and
/// larger keys throughout its right subtree.
pub open spec fn ordered<K: Ord, V>(s: Seq<Option<(K, V)>>) -> bool {
    forall|i: int, j: int| occupied(s, i) && occupied(s, j) ==> #[trigger] ordered_at(s, i, j)
}

/// The occupied slots of `s` form a binary search tree rooted at slot 0.
pub open spec fn is_search_tree<K: Ord, V>(s: Seq<Option<(K, V)>>) -> bool {
    rooted(s) && ordered(s)
}

/// Where the search for `key` that starts at slot `i` ends: at the first
/// slot on its way that lies outside `s`, is empty, or holds `key`.
pub open spec fn walk<K: Ord, V>(s: Seq<Option<(K, V)>>, key: K, i: int) -> int
    decreases slots_from(s.len(), i),
{
    if 0 <= i < s.len() {
        match s[i] {
            None => i,
            Some((k, _)) => if k == key {
                i
            } else if less(key, k) {
                walk(s, key, left_of(i))
            } else {
                walk(s, key, right_of(i))
            },
        }
    } else {
        i
    }
}

/// The slot that belongs to `key`: the one that holds it, or the one where
/// it would be put.
pub open spec fn target<K: Ord, V>(s: Seq<Option<(K, V)>>, key: K) -> int {
    walk(s, key, 0)
}

/// The value that the search for `key` finds, if it finds one.
pub open spec fn lookup<K: Ord, V>(s: Seq<Option<(K, V)>>, key: K) -> Option<V> {
    if occupied(s, target(s, key)) {
        Some(value_at(s, target(s, key)))
    } else {
        None
    }
}

/// The pairs held by the slots of `s`, as a map from key to value.
pub open spec fn as_map<K, V>(s: Seq<Option<(K, V)>>) -> Map<K, V> {
    Map::new(
        |k: K| exists|i: int| #[trigger] occupied(s, i) && key_at(s, i) == k,
        |k: K| value_at(s, choose|i: int| #[trigger] occupied(s, i) && key_at(s, i) == k),
    )
}

/// `s` followed by empty slots up to the length `n`.
pub open spec fn padded<K, V>(s: Seq<Option<(K, V)>>, n: nat) -> Seq<Option<(K, V)>> {
    Seq::new(
        if n > s.len() {
            n
        } else {
            s.len()
        },
        |i: int|
            if i < s.len() {
                s[i]
            } else {
                None
            },
    )
}

/// `s` doubled in length: every slot keeps its index and its content, and
/// the new slots are empty.
pub open spec fn grown<K, V>(s: Seq<Option<(K, V)>>) -> Seq<Option<(K, V)>> {
    padded(s, 2 * s.len())
}

/// The length reached from `cap` by doubling until slot `t` lies inside.
pub open spec fn grown_capacity(cap: nat, t: int) -> nat
    decreases slots_from((t + 1) as nat, cap as int),
{
    if 0 < cap <= t {
        grown_capacity(2 * cap, t)
    } else {
        cap
    }
}

/// How often the length `cap` is doubled until slot `t` lies inside.
pub open spec fn doublings(cap: nat, t: int) -> nat
    decreases slots_from((t + 1) as nat, cap as int),
{
    if 0 < cap <= t {
        1 + doublings(2 * cap, t)
    } else {
        0
    }
}

/// The indices of the occupied slots.
pub open spec fn occupied_slots<K, V>(s: Seq<Option<(K, V)>>) -> Set<int> {
    Set::new(|i: int| occupied(s, i))
}

/// What an inspection of the slots shows, slot by slot: the occupied slots,
/// and with `alternate` the empty ones too.
pub open spec fn shown<K, V>(s: Seq<Option<(K, V)>>, alternate: bool) -> Seq<Option<(K, V)>>
    decreases s.len(),
{
    if s.len() == 0 {
        Seq::empty()
    } else if alternate || s.last() is Some {
        shown(s.drop_last(), alternate).push(s.last())
    } else {
        shown(s.drop_last(), alternate)
    }
}

/// The slots after `key` has been stored with `value`: doubled until the
/// slot of `key` lies inside, then with the pair in that slot.
pub open spec fn inserted<K: Ord, V>(s: Seq<Option<(K, V)>>, key: K, value: V) -> Seq<
    Option<(K, V)>,
> {
    padded(s, grown_capacity(s.len(), target(s, key))).update(
        target(s, key),
        Some((key, value)),
    )
}

/// The pair of slot `i` as a sequence: of one pair if the slot is occupied,
/// else of none.
pub open spec fn slot_entry<K, V>(s: Seq<Option<(K, V)>>, i: int) -> Seq<(K, V)> {
    if occupied(s, i) {
        seq![s[i].unwrap()]
    } else {
        Seq::empty()
    }
}

/// The pairs in the subtree of slot `i`, in in-order position: those of the
/// left subtree, then the pair of `i`, then those of the right subtree.
pub open spec fn in_order_from<K, V>(s: Seq<Option<(K, V)>>, i: int) -> Seq<(K, V)>
    decreases slots_from(s.len(), i),
{
    if 0 <= i < s.len() {
        in_order_from(s, left_of(i)) + slot_entry(s, i) + in_order_from(s, right_of(i))
    } else {
        Seq::empty()
    }
}

/// The pairs of the whole tree, in in-order position.
pub open spec fn in_order<K, V>(s: Seq<Option<(K, V)>>) -> Seq<(K, V)> {
    in_order_from(s, 0)
}

/// The pairs held by the slots that `indices` names, in that order.
pub open spec fn entries_at<K, V>(s: Seq<Option<(K, V)>>, indices: Seq<int>) -> Seq<(K, V)>
    decreases indices.len(),
{
    if indices.len() == 0 {
        Seq::empty()
    } else {
        slot_entry(s, indices.first()) + entries_at(s, indices.drop_first())
    }
}

/// The keys of `q` come in strictly ascending order.
pub open spec fn ascending<K: Ord, V>(q: Seq<(K, V)>) -> bool {
    forall|a: int, b: int| 0 <= a < b < q.len() ==> less(#[trigger] q[a].0, #[trigger] q[b].0)
}

/// The pair `e` is held by a slot in the subtree of slot `i`.
pub open spec fn from_subtree<K, V>(s: Seq<Option<(K, V)>>, e: (K, V), i: int) -> bool {
    exists|j: int| #[trigger] occupied(s, j) && descends(j, i) && s[j] == Some(e)
}

} // verus!
