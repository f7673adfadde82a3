use binary_trees::binary_tree::BinaryTree;

#[test]
fn create_tree() {
    let root = BinaryTree::new(Some(1), None, None);
    assert_eq!(*root.unwrap().elem().unwrap(), 1);
}

#[test]
fn binary_tree_test_contains() {
    let root = BinaryTree::new(
        Some(1),
        BinaryTree::new(Some(2), BinaryTree::new(Some(4), None, None), None),
        BinaryTree::new(
            Some(3),
            BinaryTree::new(Some(8), None, None),
            BinaryTree::new(Some(5), None, BinaryTree::new(Some(10), None, None)),
        ),
    );

    assert_eq!(root.as_ref().unwrap().contains(&10), true);
    assert_eq!(root.as_ref().unwrap().contains(&1), true);
    assert_eq!(root.as_ref().unwrap().contains(&8), true);
    assert_eq!(root.as_ref().unwrap().contains(&0), false);
}

#[test]
fn new_always_hands_back_a_node() {
    let empty: Option<Box<BinaryTree<i32>>> = BinaryTree::new(None, None, None);
    assert!(empty.is_some());
    let full = BinaryTree::new(Some(3), BinaryTree::new(Some(1), None, None), None);
    assert!(full.is_some());
}

#[test]
fn empty_value_slot_is_an_empty_tree() {
    let tree = BinaryTree::new(None, None, None).unwrap();
    assert!(tree.is_empty());
    assert!(tree.elem().is_none());
    assert_eq!(tree.contains(&0), false);
}

#[test]
fn filled_value_slot_is_not_empty() {
    let tree = BinaryTree::new(Some(9), None, None).unwrap();
    assert!(!tree.is_empty());
    assert_eq!(tree.elem(), Some(&9));
    assert!(tree.contains(&9));
    assert!(!tree.contains(&8));
}

#[test]
fn every_value_of_the_tree_is_found_wherever_it_stands() {
    let root = BinaryTree::new(
        Some(1),
        BinaryTree::new(Some(2), BinaryTree::new(Some(4), None, None), None),
        BinaryTree::new(
            Some(3),
            BinaryTree::new(Some(8), None, None),
            BinaryTree::new(Some(5), None, BinaryTree::new(Some(10), None, None)),
        ),
    )
    .unwrap();
    let values = [1, 2, 4, 3, 8, 5, 10];
    for candidate in -2..14 {
        assert_eq!(root.contains(&candidate), values.contains(&candidate));
    }
}

#[test]
fn no_order_is_needed_to_find_a_value() {
    let root = BinaryTree::new(
        Some(1),
        BinaryTree::new(Some(100), None, BinaryTree::new(Some(-7), None, None)),
        BinaryTree::new(Some(0), BinaryTree::new(Some(100), None, None), None),
    )
    .unwrap();
    assert!(root.contains(&-7));
    assert!(root.contains(&100));
    assert!(root.contains(&0));
    assert!(!root.contains(&7));
}

#[test]
fn nothing_below_an_empty_value_slot_is_found() {
    let below = BinaryTree::new(Some(2), None, None);
    let hollow = BinaryTree::new(None, below, None);
    let root = BinaryTree::new(Some(1), hollow, BinaryTree::new(Some(3), None, None)).unwrap();
    assert!(root.contains(&1));
    assert!(root.contains(&3));
    assert!(!root.contains(&2));
}

#[test]
fn plain_tree_works_on_owned_strings() {
    let root = BinaryTree::new(
        Some(String::from("top")),
        BinaryTree::new(Some(String::from("left")), None, None),
        BinaryTree::new(Some(String::from("right")), None, None),
    )
    .unwrap();
    assert!(root.contains(&String::from("right")));
    assert!(!root.contains(&String::from("middle")));
}
