use binary_tree::BinaryTree;

fn keys_in_order<V>(tree: BinaryTree<i32, V>) -> Vec<i32> {
    let mut iter = tree.into_iter();
    let mut keys = Vec::new();
    while let Some(kv) = iter.next() {
        keys.push(kv.0);
    }
    keys
}

#[test]
fn it_works() {
    let mut b_tree = BinaryTree::with_capacity(8);

    b_tree.insert(7, "sieben");
    b_tree.insert(4, "vier");
    b_tree.insert(2, "zwei");
    b_tree.insert(5, "fünf");

    assert_eq!(b_tree.get(&2), Some("zwei").as_ref());
    assert_eq!(b_tree.get(&5), Some("fünf").as_ref());
}

#[test]
fn balancing() {
    let mut b_tree = BinaryTree::with_capacity(8);

    b_tree.insert(1, "eins");
    println!("{:#?}", b_tree.debug_entries(true));
    b_tree.insert(2, "zwei");
    println!("{:#?}", b_tree.debug_entries(true));
    b_tree.insert(3, "drei");
    println!("{:#?}", b_tree.debug_entries(true));
    b_tree.insert(4, "vier");
    println!("{:#?}", b_tree.debug_entries(true));
    b_tree.insert(5, "fünf");
    println!("{:#?}", b_tree.debug_entries(true));
    b_tree.insert(6, "sechs");
    println!("{:#?}", b_tree.debug_entries(true));
    b_tree.insert(7, "sieben");
    println!("{:#?}", b_tree.debug_entries(true));

    let vec: Vec<_> = keys_in_order(b_tree);

    assert_eq!(vec, vec![1, 2, 3, 4, 5, 6, 7])
}

#[test]
fn it_grows() {
    let mut b_tree = BinaryTree::with_capacity(2);

    b_tree.insert(7, "sieben");
    b_tree.insert(4, "vier");
    b_tree.insert(2, "zwei");
    b_tree.insert(5, "fünf");

    assert_eq!(b_tree.get(&2), Some("zwei").as_ref());
    assert_eq!(b_tree.get(&5), Some("fünf").as_ref());
}

#[test]
fn iter_it() {
    let mut b_tree = BinaryTree::with_capacity(32);

    b_tree.insert(7, "sieben");
    b_tree.insert(4, "vier");
    b_tree.insert(2, "zwei");
    b_tree.insert(5, "fünf");

    let vec: Vec<_> = keys_in_order(b_tree);

    assert_eq!(vec, vec![2, 4, 5, 7])
}

#[test]
fn new_tree_has_eight_slots() {
    let tree: BinaryTree<i32, &str> = BinaryTree::new();
    assert_eq!(tree.capacity(), 8);
}

#[test]
fn capacity_is_at_least_one() {
    let tree: BinaryTree<i32, &str> = BinaryTree::with_capacity(0);
    assert_eq!(tree.capacity(), 1);
    let tree: BinaryTree<i32, &str> = BinaryTree::with_capacity(1);
    assert_eq!(tree.capacity(), 1);
    let tree: BinaryTree<i32, &str> = BinaryTree::with_capacity(5);
    assert_eq!(tree.capacity(), 5);
}

#[test]
fn missing_key_on_empty_tree() {
    let tree: BinaryTree<i32, &str> = BinaryTree::new();
    assert_eq!(tree.get(&3), None);
    assert_eq!(tree.get(&0), None);
}

#[test]
fn missing_key_on_filled_tree() {
    let mut tree = BinaryTree::with_capacity(8);
    tree.insert(7, "sieben");
    tree.insert(4, "vier");
    assert_eq!(tree.get(&5), None);
    assert_eq!(tree.get(&8), None);
    assert_eq!(tree.get(&1), None);
    assert_eq!(tree.get(&7), Some(&"sieben"));
}

#[test]
fn example_with_four_keys() {
    let mut tree = BinaryTree::with_capacity(8);
    assert_eq!(tree.insert(7, "sieben"), None);
    assert_eq!(tree.insert(4, "vier"), None);
    assert_eq!(tree.insert(2, "zwei"), None);
    assert_eq!(tree.insert(5, "fünf"), None);
    assert_eq!(tree.get(&2), Some(&"zwei"));
    assert_eq!(tree.get(&5), Some(&"fünf"));
    assert_eq!(tree.capacity(), 8);
    assert_eq!(keys_in_order(tree), vec![2, 4, 5, 7]);
}

#[test]
fn chain_of_increasing_keys() {
    let mut tree = BinaryTree::with_capacity(8);
    for key in 1..8 {
        assert_eq!(tree.insert(key, key * 10), None);
    }
    for key in 1..8 {
        assert_eq!(tree.get(&key), Some(&(key * 10)));
    }
    assert_eq!(tree.find_index(&1), 0);
    assert_eq!(tree.find_index(&2), 2);
    assert_eq!(tree.find_index(&3), 6);
    assert_eq!(tree.find_index(&7), 126);
    assert_eq!(tree.capacity(), 128);
    assert_eq!(keys_in_order(tree), vec![1, 2, 3, 4, 5, 6, 7]);
}

#[test]
fn insert_returns_prior_value() {
    let mut tree = BinaryTree::with_capacity(8);
    assert_eq!(tree.insert(7, "sieben"), None);
    assert_eq!(tree.insert(4, "vier"), None);
    assert_eq!(tree.insert(7, "seven"), Some("sieben"));
    assert_eq!(tree.get(&7), Some(&"seven"));
    assert_eq!(tree.insert(7, "sept"), Some("seven"));
    assert_eq!(tree.get(&7), Some(&"sept"));
    assert_eq!(tree.get(&4), Some(&"vier"));
}

#[test]
fn update_adds_no_entry() {
    let mut tree = BinaryTree::with_capacity(4);
    tree.insert(7, "sieben");
    tree.insert(4, "vier");
    tree.insert(9, "neun");
    let before = tree.debug_entries(false).len();
    assert_eq!(before, 3);
    assert_eq!(tree.insert(4, "four"), Some("vier"));
    assert_eq!(tree.debug_entries(false).len(), 3);
    assert_eq!(tree.capacity(), 4);
    let mut iter = tree.into_iter();
    assert_eq!(iter.next(), Some((4, "four")));
    assert_eq!(iter.next(), Some((7, "sieben")));
    assert_eq!(iter.next(), Some((9, "neun")));
    assert_eq!(iter.next(), None);
}

#[test]
fn find_index_follows_the_keys() {
    let mut tree = BinaryTree::with_capacity(8);
    assert_eq!(tree.find_index(&7), 0);
    tree.insert(7, "sieben");
    assert_eq!(tree.find_index(&7), 0);
    assert_eq!(tree.find_index(&4), 1);
    assert_eq!(tree.find_index(&9), 2);
    tree.insert(4, "vier");
    assert_eq!(tree.find_index(&2), 3);
    assert_eq!(tree.find_index(&5), 4);
    tree.insert(2, "zwei");
    assert_eq!(tree.find_index(&1), 7);
    assert_eq!(tree.find_index(&3), 8);
    tree.insert(3, "drei");
    assert_eq!(tree.capacity(), 16);
    assert_eq!(tree.find_index(&3), 8);
}

#[test]
fn find_index_leaves_the_array() {
    let mut tree = BinaryTree::with_capacity(1);
    tree.insert(7, "sieben");
    assert_eq!(tree.capacity(), 1);
    assert_eq!(tree.find_index(&4), 1);
    assert_eq!(tree.find_index(&9), 2);
    assert_eq!(tree.get(&4), None);
    assert_eq!(tree.get(&9), None);
}

#[test]
fn capacity_doubles_until_the_slot_fits() {
    let mut tree = BinaryTree::with_capacity(2);
    tree.insert(7, "sieben");
    assert_eq!(tree.capacity(), 2);
    tree.insert(4, "vier");
    assert_eq!(tree.capacity(), 2);
    tree.insert(2, "zwei");
    assert_eq!(tree.capacity(), 4);
    tree.insert(5, "fünf");
    assert_eq!(tree.capacity(), 8);
    tree.insert(1, "eins");
    assert_eq!(tree.capacity(), 8);
    assert_eq!(tree.get(&7), Some(&"sieben"));
    assert_eq!(tree.get(&4), Some(&"vier"));
    assert_eq!(tree.get(&2), Some(&"zwei"));
    assert_eq!(tree.get(&5), Some(&"fünf"));
    assert_eq!(tree.get(&1), Some(&"eins"));
}

#[test]
fn one_insert_may_double_more_than_once() {
    let mut tree = BinaryTree::with_capacity(1);
    tree.insert(1, "eins");
    assert_eq!(tree.capacity(), 1);
    tree.insert(2, "zwei");
    assert_eq!(tree.capacity(), 4);
    tree.insert(3, "drei");
    assert_eq!(tree.capacity(), 8);
    tree.insert(4, "vier");
    assert_eq!(tree.capacity(), 16);
    tree.insert(5, "fünf");
    assert_eq!(tree.capacity(), 32);
    assert_eq!(keys_in_order(tree), vec![1, 2, 3, 4, 5]);
}

#[test]
fn grow_doubles_and_keeps_every_slot() {
    let mut tree = BinaryTree::with_capacity(3);
    tree.insert(7, "sieben");
    tree.insert(4, "vier");
    tree.insert(9, "neun");
    let before: Vec<Option<(i32, &str)>> =
        tree.debug_entries(true).into_iter().map(|e| e.copied()).collect();
    assert_eq!(before, vec![Some((7, "sieben")), Some((4, "vier")), Some((9, "neun"))]);
    tree.grow();
    assert_eq!(tree.capacity(), 6);
    let after: Vec<Option<(i32, &str)>> =
        tree.debug_entries(true).into_iter().map(|e| e.copied()).collect();
    assert_eq!(
        after,
        vec![Some((7, "sieben")), Some((4, "vier")), Some((9, "neun")), None, None, None]
    );
    tree.grow();
    assert_eq!(tree.capacity(), 12);
    assert_eq!(tree.get(&7), Some(&"sieben"));
    assert_eq!(tree.get(&4), Some(&"vier"));
    assert_eq!(tree.get(&9), Some(&"neun"));
    assert_eq!(tree.get(&5), None);
}

#[test]
fn debug_entries_lists_slots_in_array_order() {
    let mut tree = BinaryTree::with_capacity(8);
    tree.insert(7, "sieben");
    tree.insert(4, "vier");
    tree.insert(5, "fünf");
    assert_eq!(
        tree.debug_entries(false),
        vec![Some(&(7, "sieben")), Some(&(4, "vier")), Some(&(5, "fünf"))]
    );
    assert_eq!(
        tree.debug_entries(true),
        vec![
            Some(&(7, "sieben")),
            Some(&(4, "vier")),
            None,
            None,
            Some(&(5, "fünf")),
            None,
            None,
            None
        ]
    );
}

#[test]
fn debug_entries_of_empty_tree() {
    let tree: BinaryTree<i32, &str> = BinaryTree::with_capacity(3);
    assert_eq!(tree.debug_entries(false), Vec::<Option<&(i32, &str)>>::new());
    assert_eq!(tree.debug_entries(true), vec![None, None, None]);
}

#[test]
fn traversal_yields_every_pair_once_in_ascending_order() {
    let mut tree = BinaryTree::with_capacity(2);
    let keys = [50, 20, 70, 10, 30, 60, 80, 25, 65, 20, 80];
    for key in keys {
        tree.insert(key, key + 1);
    }
    let mut iter = tree.into_iter();
    let mut pairs = Vec::new();
    while let Some(kv) = iter.next() {
        pairs.push(kv);
    }
    assert_eq!(
        pairs,
        vec![
            (10, 11),
            (20, 21),
            (25, 26),
            (30, 31),
            (50, 51),
            (60, 61),
            (65, 66),
            (70, 71),
            (80, 81)
        ]
    );
    assert_eq!(iter.next(), None);
    assert_eq!(iter.next(), None);
}

#[test]
fn traversal_of_empty_tree_yields_nothing() {
    let tree: BinaryTree<i32, &str> = BinaryTree::new();
    let mut iter = tree.into_iter();
    assert_eq!(iter.next(), None);
}

#[test]
fn clone_is_independent() {
    let mut tree = BinaryTree::with_capacity(4);
    tree.insert(7, "sieben");
    let copy = tree.clone();
    tree.insert(7, "seven");
    tree.insert(4, "vier");
    assert_eq!(copy.get(&7), Some(&"sieben"));
    assert_eq!(copy.get(&4), None);
    assert_eq!(tree.get(&7), Some(&"seven"));
}

#[test]
fn keys_of_another_type() {
    let mut tree = BinaryTree::with_capacity(2);
    tree.insert(String::from("pear"), 3u8);
    tree.insert(String::from("apple"), 1u8);
    tree.insert(String::from("quince"), 4u8);
    tree.insert(String::from("banana"), 2u8);
    assert_eq!(tree.get(&String::from("banana")), Some(&2u8));
    assert_eq!(tree.get(&String::from("cherry")), None);
    let mut iter = tree.into_iter();
    let mut names = Vec::new();
    while let Some(kv) = iter.next() {
        names.push(kv.0);
    }
    assert_eq!(names, vec!["apple", "banana", "pear", "quince"]);
}
