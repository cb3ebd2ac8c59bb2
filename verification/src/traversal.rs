//! Why the traversal is right: the facts about the pairs of a tree taken in
//! in-order position.

use vstd::prelude::*;
use crate::bi_tree::descends;
use crate::bi_tree::index_order;
use crate::bi_tree::left_of;
use crate::bi_tree::lemma_children;
use crate::bi_tree::lemma_descends_not_before;
use crate::bi_tree::lemma_descends_split;
use crate::bi_tree::lemma_descends_transitive;
use crate::bi_tree::right_of;
use crate::bi_tree::slots_from;
use crate::order::lemma_less_transitive;
use crate::order::less;
use crate::order::strict_total_order;
use crate::search::lemma_rooted_chain;
use crate::slots::ascending;
use crate::slots::entries_at;
use crate::slots::from_subtree;
use crate::slots::in_order_from;
use crate::slots::is_search_tree;
use crate::slots::key_at;
use crate::slots::occupied;
use crate::slots::ordered_at;
use crate::slots::slot_entry;

verus! {

/// The pairs at two runs of indices, one after the other, are the pairs at
/// the first run followed by those at the second.
pub proof fn lemma_entries_at_concat<K, V>(s: Seq<Option<(K, V)>>, a: Seq<int>, b: Seq<int>)
    ensures
        entries_at(s, a + b) == entries_at(s, a) + entries_at(s, b),
    decreases a.len(),
{
    if a.len() == 0 {
        assert(a + b =~= b);
    } else {
        assert((a + b).drop_first() =~= a.drop_first() + b);
        lemma_entries_at_concat(s, a.drop_first(), b);
    }
    assert(entries_at(s, a + b) =~= entries_at(s, a) + entries_at(s, b));
}

/// The in-order pairs are the pairs at the in-order indices.
pub proof fn lemma_in_order_by_index<K, V>(s: Seq<Option<(K, V)>>, i: int)
    ensures
        in_order_from(s, i) == entries_at(s, index_order(s.len(), i)),
    decreases slots_from(s.len(), i),
{
    if 0 <= i < s.len() {
        let l = index_order(s.len(), left_of(i));
        let r = index_order(s.len(), right_of(i));
        lemma_in_order_by_index(s, left_of(i));
        lemma_in_order_by_index(s, right_of(i));
        lemma_entries_at_concat(s, l + seq![i], r);
        lemma_entries_at_concat(s, l, seq![i]);
        assert(seq![i].drop_first() =~= Seq::<int>::empty());
        assert(entries_at(s, seq![i].drop_first()) =~= Seq::<(K, V)>::empty());
        assert(entries_at(s, seq![i]) =~= slot_entry(s, i));
    }
}

/// A change to a slot that `indices` does not name leaves the pairs at
/// `indices` as they were.
pub proof fn lemma_entries_at_update<K, V>(
    s: Seq<Option<(K, V)>>,
    indices: Seq<int>,
    i: int,
    e: Option<(K, V)>,
)
    requires
        0 <= i < s.len(),
        !indices.contains(i),
    ensures
        entries_at(s.update(i, e), indices) == entries_at(s, indices),
    decreases indices.len(),
{
    if indices.len() > 0 {
        assert(indices[0] != i);
        assert forall|x: int| indices.drop_first().contains(x) implies indices.contains(x) by {
            let k = choose|k: int|
                0 <= k < indices.drop_first().len() && indices.drop_first()[k] == x;
            assert(indices[k + 1] == x);
        }
        lemma_entries_at_update(s, indices.drop_first(), i, e);
    }
}

/// The in-order pairs of a subtree are held by slots of that subtree.
pub proof fn lemma_in_order_within<K, V>(s: Seq<Option<(K, V)>>, i: int)
    requires
        0 <= i,
    ensures
        forall|x: int|
            0 <= x < in_order_from(s, i).len() ==> from_subtree(
                s,
                #[trigger] in_order_from(s, i)[x],
                i,
            ),
    decreases slots_from(s.len(), i),
{
    if i < s.len() {
        let l = in_order_from(s, left_of(i));
        let r = in_order_from(s, right_of(i));
        let m = slot_entry(s, i);
        let q = in_order_from(s, i);
        lemma_in_order_within(s, left_of(i));
        lemma_in_order_within(s, right_of(i));
        lemma_children(i);
        assert forall|x: int| 0 <= x < q.len() implies from_subtree(s, #[trigger] q[x], i) by {
            if x < l.len() {
                assert(from_subtree(s, l[x], left_of(i)));
                let j = choose|j: int| #[trigger]
                    occupied(s, j) && descends(j, left_of(i)) && s[j] == Some(l[x]);
                lemma_descends_transitive(j, left_of(i), i);
                assert(occupied(s, j) && descends(j, i) && s[j] == Some(q[x]));
            } else if x < l.len() + m.len() {
                assert(occupied(s, i) && descends(i, i) && s[i] == Some(q[x]));
            } else {
                let y = x - l.len() - m.len();
                assert(from_subtree(s, r[y], right_of(i)));
                let j = choose|j: int| #[trigger]
                    occupied(s, j) && descends(j, right_of(i)) && s[j] == Some(r[y]);
                lemma_descends_transitive(j, right_of(i), i);
                assert(occupied(s, j) && descends(j, i) && s[j] == Some(q[x]));
            }
        }
    }
}

/// Every pair held in the subtree of slot `i` is among the in-order pairs
/// of that subtree.
pub proof fn lemma_in_order_holds<K, V>(s: Seq<Option<(K, V)>>, j: int, i: int)
    requires
        0 <= i,
        occupied(s, j),
        descends(j, i),
    ensures
        in_order_from(s, i).contains(s[j].unwrap()),
    decreases slots_from(s.len(), i),
{
    let l = in_order_from(s, left_of(i));
    let r = in_order_from(s, right_of(i));
    let m = slot_entry(s, i);
    let q = in_order_from(s, i);
    lemma_descends_not_before(j, i);
    if j == i {
        assert(q[l.len() as int] == s[j].unwrap());
    } else {
        lemma_descends_split(j, i);
        if descends(j, left_of(i)) {
            lemma_in_order_holds(s, j, left_of(i));
            let x = choose|x: int| 0 <= x < l.len() && l[x] == s[j].unwrap();
            assert(q[x] == s[j].unwrap());
        } else {
            lemma_in_order_holds(s, j, right_of(i));
            let x = choose|x: int| 0 <= x < r.len() && r[x] == s[j].unwrap();
            assert(q[l.len() + m.len() + x] == s[j].unwrap());
        }
    }
}

/// In a search tree the in-order pairs of a subtree come in strictly
/// ascending order of their keys.
pub proof fn lemma_in_order_ascending<K: Ord, V>(s: Seq<Option<(K, V)>>, i: int)
    requires
        strict_total_order::<K>(),
        is_search_tree(s),
        0 <= i,
    ensures
        ascending(in_order_from(s, i)),
    decreases slots_from(s.len(), i),
{
    if i < s.len() {
        let l = in_order_from(s, left_of(i));
        let r = in_order_from(s, right_of(i));
        let m = slot_entry(s, i);
        let q = in_order_from(s, i);
        lemma_in_order_ascending(s, left_of(i));
        lemma_in_order_ascending(s, right_of(i));
        lemma_in_order_within(s, left_of(i));
        lemma_in_order_within(s, right_of(i));
        lemma_children(i);
        assert forall|a: int, b: int| 0 <= a < b < q.len() implies less(
            #[trigger] q[a].0,
            #[trigger] q[b].0,
        ) by {
            if b < l.len() {
                assert(less(l[a].0, l[b].0));
            } else if a >= l.len() + m.len() {
                assert(less(r[a - l.len() - m.len()].0, r[b - l.len() - m.len()].0));
            } else {
                if a < l.len() {
                    assert(from_subtree(s, l[a], left_of(i)));
                    let j = choose|j: int| #[trigger]
                        occupied(s, j) && descends(j, left_of(i)) && s[j] == Some(l[a]);
                    lemma_descends_transitive(j, left_of(i), i);
                    lemma_rooted_chain(s, j, i);
                    assert(ordered_at(s, i, j));
                    assert(less(q[a].0, key_at(s, i)));
                }
                if b >= l.len() + m.len() {
                    let y = b - l.len() - m.len();
                    assert(from_subtree(s, r[y], right_of(i)));
                    let j = choose|j: int| #[trigger]
                        occupied(s, j) && descends(j, right_of(i)) && s[j] == Some(r[y]);
                    lemma_descends_transitive(j, right_of(i), i);
                    lemma_rooted_chain(s, j, i);
                    assert(ordered_at(s, i, j));
                    assert(less(key_at(s, i), q[b].0));
                }
                if a < l.len() && b >= l.len() + m.len() {
                    lemma_less_transitive(q[a].0, key_at(s, i), q[b].0);
                }
            }
        }
    }
}

} // verus!
