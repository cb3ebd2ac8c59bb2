//! Index arithmetic of the implicit tree: the root is slot 0 and the children
//! of slot `i` are the slots `2i + 1` and `2i + 2`.

use vstd::prelude::*;

verus! {

/// The largest number of slots an array can have: with it, the children of
/// every slot still have an index that fits the machine word.
pub const MAX_CAPACITY: usize = usize::MAX / 2;

/// The slot of the left child of slot `i`.
pub open spec fn left_of(i: int) -> int {
    2 * i + 1
}

/// The slot of the right child of slot `i`.
pub open spec fn right_of(i: int) -> int {
    2 * i + 2
}

/// The slot of the parent of slot `i`, for `i > 0`.
pub open spec fn parent_of(i: int) -> int {
    (i - 1) / 2
}

/// Whether slot `index` is the right child of its parent.
pub fn is_right(index: usize) -> (r: bool)
    ensures
        r == (index > 0 && index % 2 == 0),
{
    index > 0 && index % 2 == 0
}

/// The slot of the parent of `index`; the root has none.
pub fn parrent(index: usize) -> (p: Option<usize>)
    ensures
        p == if index == 0 {
            None
        } else if index % 2 == 0 {
            Some(((index - 2) / 2) as usize)
        } else {
            Some(((index - 1) / 2) as usize)
        },
        index > 0 ==> p == Some(parent_of(index as int) as usize),
{
    if index > 0 {
        Some(
            if is_right(index) {
                (index - 2) / 2
            } else {
                (index - 1) / 2
            },
        )
    } else {
        None
    }
}

/// The slot of the right child of `index`.
pub fn right(index: usize) -> (r: usize)
    requires
        2 * index + 2 <= usize::MAX,
    ensures
        r == right_of(index as int),
{
    index * 2 + 2
}

/// The slot of the left child of `index`.
pub fn left(index: usize) -> (l: usize)
    requires
        2 * index + 1 <= usize::MAX,
    ensures
        l == left_of(index as int),
{
    index * 2 + 1
}

/// Slot `j` lies in the subtree whose root is slot `i`: `j` is `i` itself or
/// is reached from `i` by going to a child some number of times.
pub open spec fn descends(j: int, i: int) -> bool
    decreases j,
{
    j == i || (0 <= i < j && descends(parent_of(j), i))
}

/// Both children of a slot lie in its subtree, and each is the slot's child.
pub proof fn lemma_children(i: int)
    requires
        0 <= i,
    ensures
        descends(left_of(i), i),
        descends(right_of(i), i),
        parent_of(left_of(i)) == i,
        parent_of(right_of(i)) == i,
{
    assert(descends(i, i));
}

/// A subtree holds no slot before its root.
pub proof fn lemma_descends_not_before(j: int, i: int)
    requires
        descends(j, i),
    ensures
        i <= j,
{
}

/// A subtree of a subtree is part of the outer one.
pub proof fn lemma_descends_transitive(j: int, m: int, i: int)
    requires
        descends(j, m),
        descends(m, i),
    ensures
        descends(j, i),
    decreases j,
{
    if j != m && m != i {
        lemma_descends_transitive(parent_of(j), m, i);
    }
}

/// What lies in a subtree below its root lies under one of the root's
/// children.
pub proof fn lemma_descends_split(j: int, i: int)
    requires
        descends(j, i),
        j != i,
    ensures
        descends(j, left_of(i)) || descends(j, right_of(i)),
    decreases j,
{
    if parent_of(j) != i {
        lemma_descends_split(parent_of(j), i);
    }
}

/// The roots of two subtrees that share a slot lie one in the other's
/// subtree.
pub proof fn lemma_descends_chain(j: int, a: int, b: int)
    requires
        descends(j, a),
        descends(j, b),
        a <= b,
    ensures
        descends(b, a),
    decreases j,
{
    if j != b && j != a {
        lemma_descends_chain(parent_of(j), a, b);
    }
}

/// The subtrees under the two children of a slot share no slot, and neither
/// holds the slot itself.
pub proof fn lemma_descends_disjoint(j: int, i: int)
    requires
        0 <= i,
    ensures
        !(descends(j, left_of(i)) && descends(j, right_of(i))),
        !descends(i, left_of(i)),
        !descends(i, right_of(i)),
{
    if descends(j, left_of(i)) && descends(j, right_of(i)) {
        lemma_descends_chain(j, left_of(i), right_of(i));
    }
}

/// Every slot lies in the subtree of the root.
pub proof fn lemma_descends_from_root(j: int)
    requires
        0 <= j,
    ensures
        descends(j, 0),
    decreases j,
{
    if j > 0 {
        lemma_descends_from_root(parent_of(j));
    }
}

/// How many slots of an array of length `len` lie at or after slot `i`.
pub open spec fn slots_from(len: nat, i: int) -> nat {
    if i < len {
        (len - i) as nat
    } else {
        0
    }
}

/// The slots of the subtree of `i` in an array of `cap` slots, in in-order
/// position: the left subtree, then `i`, then the right subtree.
pub open spec fn index_order(cap: nat, i: int) -> Seq<int>
    decreases slots_from(cap, i),
{
    if 0 <= i < cap {
        index_order(cap, left_of(i)) + seq![i] + index_order(cap, right_of(i))
    } else {
        Seq::empty()
    }
}

/// The in-order sequence of a subtree holds only slots of that subtree that
/// lie inside the array.
pub proof fn lemma_index_order_within(cap: nat, i: int)
    ensures
        forall|x: int|
            0 <= x < index_order(cap, i).len() ==> 0 <= #[trigger] index_order(cap, i)[x] < cap
                && descends(index_order(cap, i)[x], i),
    decreases slots_from(cap, i),
{
    if 0 <= i < cap {
        let l = index_order(cap, left_of(i));
        let r = index_order(cap, right_of(i));
        lemma_index_order_within(cap, left_of(i));
        lemma_index_order_within(cap, right_of(i));
        lemma_children(i);
        let q = index_order(cap, i);
        assert forall|x: int| 0 <= x < q.len() implies 0 <= #[trigger] q[x] < cap && descends(
            q[x],
            i,
        ) by {
            if x < l.len() {
                lemma_descends_transitive(l[x], left_of(i), i);
            } else if x > l.len() {
                lemma_descends_transitive(r[x - l.len() - 1], right_of(i), i);
            }
        }
    }
}

/// The in-order sequence of a subtree names every slot of that subtree that
/// lies inside the array.
pub proof fn lemma_index_order_holds(cap: nat, j: int, i: int)
    requires
        0 <= i,
        j < cap,
        descends(j, i),
    ensures
        index_order(cap, i).contains(j),
    decreases slots_from(cap, i),
{
    let l = index_order(cap, left_of(i));
    let r = index_order(cap, right_of(i));
    let q = index_order(cap, i);
    if j == i {
        assert(q[l.len() as int] == j);
    } else {
        lemma_descends_split(j, i);
        if descends(j, left_of(i)) {
            lemma_index_order_holds(cap, j, left_of(i));
            let x = choose|x: int| 0 <= x < l.len() && l[x] == j;
            assert(q[x] == j);
        } else {
            lemma_index_order_holds(cap, j, right_of(i));
            let x = choose|x: int| 0 <= x < r.len() && r[x] == j;
            assert(q[l.len() + 1 + x] == j);
        }
    }
}

/// The in-order sequence of a subtree names no slot twice.
pub proof fn lemma_index_order_distinct(cap: nat, i: int)
    ensures
        index_order(cap, i).no_duplicates(),
    decreases slots_from(cap, i),
{
    if 0 <= i < cap {
        let l = index_order(cap, left_of(i));
        let r = index_order(cap, right_of(i));
        let q = index_order(cap, i);
        lemma_index_order_distinct(cap, left_of(i));
        lemma_index_order_distinct(cap, right_of(i));
        lemma_index_order_within(cap, left_of(i));
        lemma_index_order_within(cap, right_of(i));
        assert forall|x: int, y: int| 0 <= x < q.len() && 0 <= y < q.len() && x != y implies q[x]
            != q[y] by {
            lemma_descends_disjoint(q[x], i);
        }
    }
}

} // verus!
