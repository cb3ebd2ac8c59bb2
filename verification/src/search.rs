//! Why searching and storing are right: the facts about the search for a
//! key, about growth, and about a pair put into the slot of its key.

use vstd::prelude::*;
use crate::bi_tree::descends;
use crate::bi_tree::left_of;
use crate::bi_tree::lemma_children;
use crate::bi_tree::lemma_descends_disjoint;
use crate::bi_tree::lemma_descends_from_root;
use crate::bi_tree::lemma_descends_split;
use crate::bi_tree::lemma_descends_transitive;
use crate::bi_tree::parent_of;
use crate::bi_tree::right_of;
use crate::bi_tree::slots_from;
use crate::order::lemma_less_asymmetric;
use crate::order::lemma_less_total;
use crate::order::less;
use crate::order::strict_total_order;
use crate::slots::as_map;
use crate::slots::grown_capacity;
use crate::slots::inserted;
use crate::slots::is_search_tree;
use crate::slots::key_at;
use crate::slots::lookup;
use crate::slots::occupied;
use crate::slots::ordered_at;
use crate::slots::padded;
use crate::slots::rooted;
use crate::slots::rooted_at;
use crate::slots::target;
use crate::slots::walk;

verus! {

/// The search from slot `i` ends inside the subtree of `i`.
pub proof fn lemma_walk_descends<K: Ord, V>(s: Seq<Option<(K, V)>>, key: K, i: int)
    requires
        0 <= i,
    ensures
        descends(walk(s, key, i), i),
    decreases slots_from(s.len(), i),
{
    if occupied(s, i) && key_at(s, i) != key {
        let c = if less(key, key_at(s, i)) {
            left_of(i)
        } else {
            right_of(i)
        };
        lemma_walk_descends(s, key, c);
        lemma_children(i);
        lemma_descends_transitive(walk(s, key, c), c, i);
    }
}

/// The search ends at a slot that lies outside `s`, is empty, or holds the
/// key.
pub proof fn lemma_walk_stops<K: Ord, V>(s: Seq<Option<(K, V)>>, key: K, i: int)
    requires
        0 <= i,
    ensures
        occupied(s, walk(s, key, i)) ==> key_at(s, walk(s, key, i)) == key,
        i <= 2 * s.len() ==> walk(s, key, i) <= 2 * s.len(),
    decreases slots_from(s.len(), i),
{
    if occupied(s, i) && key_at(s, i) != key {
        if less(key, key_at(s, i)) {
            lemma_walk_stops(s, key, left_of(i));
        } else {
            lemma_walk_stops(s, key, right_of(i));
        }
    }
}

/// Every slot between the start of a search and the slot where it ends is
/// occupied by another key, and the search goes on from it to the side that
/// the order of the keys tells.
pub proof fn lemma_walk_path<K: Ord, V>(s: Seq<Option<(K, V)>>, key: K, a: int, m: int)
    requires
        0 <= a,
        descends(m, a),
        descends(walk(s, key, a), m),
        m != walk(s, key, a),
    ensures
        occupied(s, m),
        key_at(s, m) != key,
        walk(s, key, m) == walk(s, key, a),
        less(key, key_at(s, m)) <==> descends(walk(s, key, a), left_of(m)),
        !less(key, key_at(s, m)) <==> descends(walk(s, key, a), right_of(m)),
    decreases slots_from(s.len(), a),
{
    let t = walk(s, key, a);
    if a == m {
        lemma_walk_descends(s, key, left_of(m));
        lemma_walk_descends(s, key, right_of(m));
        lemma_descends_disjoint(t, m);
    } else {
        lemma_descends_split(m, a);
        let c = if less(key, key_at(s, a)) {
            left_of(a)
        } else {
            right_of(a)
        };
        lemma_walk_descends(s, key, c);
        lemma_descends_disjoint(t, a);
        if descends(m, left_of(a)) {
            lemma_descends_transitive(t, m, left_of(a));
        } else {
            lemma_descends_transitive(t, m, right_of(a));
        }
        lemma_walk_path(s, key, c, m);
    }
}

/// In a rooted sequence every slot above an occupied slot is occupied.
pub proof fn lemma_rooted_chain<K, V>(s: Seq<Option<(K, V)>>, j: int, i: int)
    requires
        rooted(s),
        occupied(s, j),
        descends(j, i),
        0 <= i,
    ensures
        occupied(s, i),
    decreases j,
{
    if j != i {
        assert(rooted_at(s, j));
        lemma_rooted_chain(s, parent_of(j), i);
    }
}

/// In a search tree the search for a stored key, started anywhere above the
/// slot that holds it, ends at that slot.
pub proof fn lemma_walk_reaches<K: Ord, V>(s: Seq<Option<(K, V)>>, j: int, i: int)
    requires
        strict_total_order::<K>(),
        is_search_tree(s),
        occupied(s, j),
        descends(j, i),
        0 <= i,
    ensures
        walk(s, key_at(s, j), i) == j,
    decreases slots_from(s.len(), i),
{
    let key = key_at(s, j);
    lemma_rooted_chain(s, j, i);
    assert(ordered_at(s, i, j));
    if j != i {
        lemma_descends_split(j, i);
        if less(key, key_at(s, i)) {
            lemma_less_asymmetric(key, key_at(s, i));
            lemma_walk_reaches(s, j, left_of(i));
        } else if less(key_at(s, i), key) {
            lemma_walk_reaches(s, j, right_of(i));
        }
    }
}

/// In a search tree a key is held by at most one slot: the slot that the
/// search for it ends at.
pub proof fn lemma_key_slot<K: Ord, V>(s: Seq<Option<(K, V)>>, j: int)
    requires
        strict_total_order::<K>(),
        is_search_tree(s),
        occupied(s, j),
    ensures
        target(s, key_at(s, j)) == j,
{
    lemma_descends_from_root(j);
    lemma_walk_reaches(s, j, 0);
}

/// In a search tree the search finds exactly what the map of the pairs
/// holds.
pub proof fn lemma_lookup_is_map<K: Ord, V>(s: Seq<Option<(K, V)>>, key: K)
    requires
        strict_total_order::<K>(),
        is_search_tree(s),
    ensures
        as_map(s).contains_key(key) <==> lookup(s, key) is Some,
        as_map(s).contains_key(key) ==> lookup(s, key) == Some(as_map(s)[key]),
{
    lemma_walk_stops(s, key, 0);
    if as_map(s).contains_key(key) {
        let i = choose|i: int| #[trigger] occupied(s, i) && key_at(s, i) == key;
        lemma_key_slot(s, i);
    }
}

/// Empty slots added at the end leave a search tree a search tree.
pub proof fn lemma_padded_is_search_tree<K: Ord, V>(s: Seq<Option<(K, V)>>, n: nat)
    requires
        is_search_tree(s),
    ensures
        is_search_tree(padded(s, n)),
{
    let p = padded(s, n);
    assert forall|j: int| #[trigger] rooted_at(p, j) by {
        assert(rooted_at(s, j));
    }
    assert forall|i: int, j: int| occupied(p, i) && occupied(p, j) implies #[trigger] ordered_at(
        p,
        i,
        j,
    ) by {
        assert(ordered_at(s, i, j));
    }
}

/// Empty slots added at the end change no search.
pub proof fn lemma_walk_padded<K: Ord, V>(s: Seq<Option<(K, V)>>, n: nat, key: K, i: int)
    ensures
        walk(padded(s, n), key, i) == walk(s, key, i),
    decreases slots_from(s.len(), i),
{
    if occupied(s, i) && key_at(s, i) != key {
        if less(key, key_at(s, i)) {
            lemma_walk_padded(s, n, key, left_of(i));
        } else {
            lemma_walk_padded(s, n, key, right_of(i));
        }
    }
}

/// Empty slots added at the end change neither what a search finds nor,
/// in a search tree, what is stored.
pub proof fn lemma_padded_keeps<K: Ord, V>(s: Seq<Option<(K, V)>>, n: nat)
    requires
        strict_total_order::<K>(),
        is_search_tree(s),
    ensures
        forall|key: K| #[trigger] target(padded(s, n), key) == target(s, key),
        forall|key: K| #[trigger] lookup(padded(s, n), key) == lookup(s, key),
        as_map(padded(s, n)) == as_map(s),
{
    let p = padded(s, n);
    lemma_padded_is_search_tree(s, n);
    assert forall|key: K| #[trigger] target(p, key) == target(s, key) by {
        lemma_walk_padded(s, n, key, 0);
    }
    assert forall|key: K| #[trigger] lookup(p, key) == lookup(s, key) by {
        lemma_walk_padded(s, n, key, 0);
    }
    assert forall|key: K|
        #[trigger] as_map(p).dom().contains(key) == as_map(s).dom().contains(key) && (as_map(
            p,
        ).dom().contains(key) ==> as_map(p)[key] == as_map(s)[key]) by {
        lemma_lookup_is_map(p, key);
        lemma_lookup_is_map(s, key);
    }
}

/// A pair put into the slot of its key leaves a search tree a search tree.
pub proof fn lemma_store_is_search_tree<K: Ord, V>(s: Seq<Option<(K, V)>>, key: K, value: V)
    requires
        strict_total_order::<K>(),
        is_search_tree(s),
        target(s, key) < s.len(),
    ensures
        is_search_tree(s.update(target(s, key), Some((key, value)))),
{
    let t = target(s, key);
    let u = s.update(t, Some((key, value)));
    lemma_walk_stops(s, key, 0);
    lemma_walk_descends(s, key, 0);
    assert forall|j: int| #[trigger] rooted_at(u, j) by {
        assert(rooted_at(s, j));
        if j == t && 0 < j {
            let p = parent_of(t);
            assert(descends(p, p));
            lemma_walk_path(s, key, 0, p);
        }
    }
    assert forall|i: int, j: int| occupied(u, i) && occupied(u, j) implies #[trigger] ordered_at(
        u,
        i,
        j,
    ) by {
        if i != t && j == t {
            lemma_children(i);
            lemma_descends_from_root(i);
            if descends(t, left_of(i)) {
                lemma_descends_transitive(t, left_of(i), i);
                lemma_walk_path(s, key, 0, i);
            }
            if descends(t, right_of(i)) {
                lemma_descends_transitive(t, right_of(i), i);
                lemma_walk_path(s, key, 0, i);
                lemma_less_total(key, key_at(s, i));
            }
        } else if i == t && j != t {
            lemma_children(t);
            if descends(j, left_of(t)) {
                lemma_descends_transitive(j, left_of(t), t);
                lemma_rooted_chain(s, j, t);
            }
            if descends(j, right_of(t)) {
                lemma_descends_transitive(j, right_of(t), t);
                lemma_rooted_chain(s, j, t);
            }
            assert(ordered_at(s, i, j));
        } else if i != t {
            assert(ordered_at(s, i, j));
        }
    }
}

/// A pair put into the slot of its key is then stored under that key, and
/// nothing else is stored differently.
pub proof fn lemma_store_is_map_insert<K: Ord, V>(s: Seq<Option<(K, V)>>, key: K, value: V)
    requires
        strict_total_order::<K>(),
        is_search_tree(s),
        target(s, key) < s.len(),
    ensures
        as_map(s.update(target(s, key), Some((key, value)))) == as_map(s).insert(key, value),
{
    let t = target(s, key);
    let u = s.update(t, Some((key, value)));
    lemma_walk_stops(s, key, 0);
    lemma_walk_descends(s, key, 0);
    let m = as_map(s).insert(key, value);
    assert forall|k: K|
        #[trigger] as_map(u).dom().contains(k) == m.dom().contains(k) && (as_map(
            u,
        ).dom().contains(k) ==> as_map(u)[k] == m[k]) by {
        if as_map(u).dom().contains(k) {
            let i = choose|i: int| #[trigger] occupied(u, i) && key_at(u, i) == k;
            if i != t {
                let j = choose|j: int| #[trigger] occupied(s, j) && key_at(s, j) == k;
                lemma_key_slot(s, i);
                lemma_key_slot(s, j);
            }
        }
        if m.dom().contains(k) {
            if k == key {
                assert(occupied(u, t) && key_at(u, t) == k);
            } else {
                let j = choose|j: int| #[trigger] occupied(s, j) && key_at(s, j) == k;
                assert(occupied(u, j) && key_at(u, j) == k);
            }
        }
    }
}

/// Doubling from a length of at least one ends at a length that holds the
/// slot aimed at, and never shrinks.
pub proof fn lemma_grown_capacity(cap: nat, t: int)
    requires
        1 <= cap,
    ensures
        cap <= grown_capacity(cap, t),
        t < grown_capacity(cap, t),
        t < cap ==> grown_capacity(cap, t) == cap,
        cap <= t ==> grown_capacity(cap, t) == grown_capacity(2 * cap, t),
    decreases slots_from((t + 1) as nat, cap as int),
{
    if cap <= t {
        lemma_grown_capacity(2 * cap, t);
    }
}

/// Storing a pair keeps a search tree a search tree, gives the map of the
/// pairs that one more entry, and ends with the least doubled length that
/// holds the slot of the key.
pub proof fn lemma_inserted<K: Ord, V>(s: Seq<Option<(K, V)>>, key: K, value: V)
    requires
        strict_total_order::<K>(),
        is_search_tree(s),
        1 <= s.len(),
    ensures
        is_search_tree(inserted(s, key, value)),
        inserted(s, key, value).len() == grown_capacity(s.len(), target(s, key)),
        as_map(inserted(s, key, value)) == as_map(s).insert(key, value),
{
    let n = grown_capacity(s.len(), target(s, key));
    lemma_grown_capacity(s.len(), target(s, key));
    lemma_padded_is_search_tree(s, n);
    lemma_padded_keeps(s, n);
    let p = padded(s, n);
    lemma_walk_descends(s, key, 0);
    lemma_store_is_search_tree(p, key, value);
    lemma_store_is_map_insert(p, key, value);
}

} // verus!
