use binary_tree::bi_tree::is_right;
use binary_tree::bi_tree::left;
use binary_tree::bi_tree::parrent;
use binary_tree::bi_tree::right;
use binary_tree::index_iter::BiTreeIndexIter;

fn all_indices(capacity: usize) -> Vec<usize> {
    let mut indexer = BiTreeIndexIter::new(capacity);
    let mut indices = Vec::new();
    while let Some(index) = indexer.next() {
        indices.push(index);
    }
    indices
}

#[test]
fn children_of_a_slot() {
    assert_eq!(left(0), 1);
    assert_eq!(right(0), 2);
    assert_eq!(left(3), 7);
    assert_eq!(right(3), 8);
    assert_eq!(left(62), 125);
    assert_eq!(right(62), 126);
}

#[test]
fn parent_of_a_slot() {
    assert_eq!(parrent(0), None);
    assert_eq!(parrent(1), Some(0));
    assert_eq!(parrent(2), Some(0));
    assert_eq!(parrent(7), Some(3));
    assert_eq!(parrent(8), Some(3));
    assert_eq!(parrent(126), Some(62));
}

#[test]
fn parent_undoes_child() {
    for index in 0..100 {
        assert_eq!(parrent(left(index)), Some(index));
        assert_eq!(parrent(right(index)), Some(index));
    }
}

#[test]
fn right_children_are_even_and_not_the_root() {
    assert!(!is_right(0));
    assert!(!is_right(1));
    assert!(is_right(2));
    assert!(!is_right(7));
    assert!(is_right(8));
    for index in 0..100 {
        assert!(is_right(right(index)));
        assert!(!is_right(left(index)));
    }
}

#[test]
fn indices_come_in_order() {
    assert_eq!(all_indices(1), vec![0]);
    assert_eq!(all_indices(2), vec![1, 0]);
    assert_eq!(all_indices(3), vec![1, 0, 2]);
    assert_eq!(all_indices(7), vec![3, 1, 4, 0, 5, 2, 6]);
    assert_eq!(all_indices(8), vec![7, 3, 1, 4, 0, 5, 2, 6]);
    assert_eq!(all_indices(10), vec![7, 3, 8, 1, 9, 4, 0, 5, 2, 6]);
}

#[test]
fn every_index_comes_once() {
    for capacity in 1..70 {
        let mut indices = all_indices(capacity);
        assert_eq!(indices.len(), capacity);
        indices.sort();
        let expected: Vec<usize> = (0..capacity).collect();
        assert_eq!(indices, expected);
    }
}

#[test]
fn exhausted_generator_stays_exhausted() {
    let mut indexer = BiTreeIndexIter::new(2);
    assert_eq!(indexer.next(), Some(1));
    assert_eq!(indexer.next(), Some(0));
    assert_eq!(indexer.next(), None);
    assert_eq!(indexer.next(), None);
}

#[test]
fn children_inside_the_array() {
    let indexer = BiTreeIndexIter::new(6);
    assert_eq!(indexer.left(0), Some(1));
    assert_eq!(indexer.right(0), Some(2));
    assert_eq!(indexer.left(2), Some(5));
    assert_eq!(indexer.right(2), None);
    assert_eq!(indexer.left(3), None);
    assert_eq!(indexer.right(3), None);
}
