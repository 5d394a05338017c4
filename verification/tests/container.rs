use bst::bst::BST;
use bst::errors::Errors;
use bst::node::Node;

/// The keys of a subtree, left to right.
fn keys_in_order(tree: &Option<Box<Node>>, out: &mut Vec<i32>) {
    if let Some(node) = tree {
        keys_in_order(&node.left, out);
        out.push(node.key);
        keys_in_order(&node.right, out);
    }
}

/// Whether every node has only smaller keys to its left and only greater
/// keys to its right, checked node by node within the bounds handed down.
fn is_search_tree(tree: &Option<Box<Node>>, low: Option<i32>, high: Option<i32>) -> bool {
    match tree {
        None => true,
        Some(node) => {
            low.map_or(true, |l| l < node.key)
                && high.map_or(true, |h| node.key < h)
                && is_search_tree(&node.left, low, Some(node.key))
                && is_search_tree(&node.right, Some(node.key), high)
        }
    }
}

fn walk(tree: &BST) -> Vec<i32> {
    let mut keys = Vec::new();
    keys_in_order(&tree.root, &mut keys);
    keys
}

fn shape(tree: &BST) -> String {
    format!("{:?}", tree.root)
}

fn filled(entries: &[(i32, i32)]) -> BST {
    let mut tree = BST::new();
    for entry in entries {
        assert_eq!(tree.add(*entry), Ok(()));
    }
    tree
}

#[test]
fn new_tree_is_empty() {
    let tree = BST::new();
    assert!(tree.is_empty());
    assert!(tree.root.is_none());
    assert_eq!(walk(&tree), Vec::<i32>::new());
}

#[test]
fn empty_tree_answers_empty_tree() {
    let mut tree = BST::new();
    for key in [i32::MIN, -1, 0, 1, 42, i32::MAX] {
        assert_eq!(tree.get(key), Err(Errors::EmptyTree));
        assert_eq!(tree.remove(key), Err(Errors::EmptyTree));
        assert!(tree.is_empty());
    }
}

#[test]
fn first_add_makes_the_root() {
    let mut tree = BST::new();
    assert_eq!(tree.add((7, 3)), Ok(()));
    assert!(!tree.is_empty());
    let root = tree.root.unwrap();
    assert_eq!((root.key, root.value), (3, 7));
    assert!(root.left.is_none());
    assert!(root.right.is_none());
}

#[test]
fn add_then_get_gives_the_value() {
    let mut tree = BST::new();
    let entries =
        [(10, 50), (-3, 20), (8, 70), (0, i32::MIN), (i32::MIN, i32::MAX), (5, 60), (9, 0)];
    for (value, key) in entries {
        assert_eq!(tree.add((value, key)), Ok(()));
        assert_eq!(tree.get(key), Ok(value));
    }
    for (value, key) in entries {
        assert_eq!(tree.get(key), Ok(value));
    }
}

#[test]
fn add_links_one_leaf_on_the_search_path() {
    let mut tree = filled(&[(50, 5), (20, 2), (80, 8)]);
    assert_eq!(tree.add((60, 6)), Ok(()));
    let root = tree.root.unwrap();
    assert_eq!((root.key, root.value), (5, 50));
    let left = root.left.unwrap();
    assert_eq!((left.key, left.value), (2, 20));
    assert!(left.left.is_none() && left.right.is_none());
    let right = root.right.unwrap();
    assert_eq!((right.key, right.value), (8, 80));
    assert!(right.right.is_none());
    let leaf = right.left.unwrap();
    assert_eq!((leaf.key, leaf.value), (6, 60));
    assert!(leaf.left.is_none() && leaf.right.is_none());
}

#[test]
fn second_add_of_a_key_is_refused() {
    let mut tree = filled(&[(1, 5), (2, 3), (3, 8)]);
    let before = shape(&tree);
    assert_eq!(tree.add((99, 3)), Err(Errors::DuplicateKey));
    assert_eq!(tree.add((2, 3)), Err(Errors::DuplicateKey));
    assert_eq!(tree.add((77, 5)), Err(Errors::DuplicateKey));
    assert_eq!(shape(&tree), before);
    assert_eq!(tree.get(3), Ok(2));
    assert_eq!(tree.get(5), Ok(1));
}

#[test]
fn get_of_an_unbound_key_is_key_not_found() {
    let tree = filled(&[(1, 5), (2, 3), (3, 8)]);
    for key in [i32::MIN, 0, 4, 6, 9, i32::MAX] {
        assert_eq!(tree.get(key), Err(Errors::KeyNotFound));
    }
}

#[test]
fn remove_gives_the_value_and_unbinds_the_key() {
    let entries = [(50, 5), (20, 2), (80, 8), (10, 1), (30, 3), (60, 6), (90, 9)];
    for (value, key) in entries {
        let mut tree = filled(&entries);
        assert_eq!(tree.remove(key), Ok(value));
        assert_eq!(tree.get(key), Err(Errors::KeyNotFound));
        for (other_value, other_key) in entries {
            if other_key != key {
                assert_eq!(tree.get(other_key), Ok(other_value));
            }
        }
        assert!(is_search_tree(&tree.root, None, None));
        assert_eq!(walk(&tree).len(), entries.len() - 1);
    }
}

#[test]
fn remove_of_the_only_key_empties_the_tree() {
    let mut tree = filled(&[(4, 7)]);
    assert_eq!(tree.remove(7), Ok(4));
    assert!(tree.is_empty());
    assert!(tree.root.is_none());
    assert_eq!(tree.get(7), Err(Errors::EmptyTree));
    assert_eq!(tree.add((5, 7)), Ok(()));
    assert_eq!(tree.get(7), Ok(5));
}

#[test]
fn remove_keeps_the_tree_nonempty_while_keys_remain() {
    let mut tree = filled(&[(1, 2), (2, 1), (3, 3)]);
    assert_eq!(tree.remove(2), Ok(1));
    assert!(!tree.is_empty());
    assert_eq!(tree.remove(1), Ok(2));
    assert!(!tree.is_empty());
    assert_eq!(tree.remove(3), Ok(3));
    assert!(tree.is_empty());
}

#[test]
fn remove_of_the_root_with_one_child_promotes_the_child() {
    let mut tree = filled(&[(50, 5), (20, 2), (10, 1)]);
    assert_eq!(tree.remove(5), Ok(50));
    let root = tree.root.unwrap();
    assert_eq!((root.key, root.value), (2, 20));
    assert_eq!(root.left.unwrap().key, 1);
    assert!(root.right.is_none());

    let mut tree = filled(&[(50, 5), (80, 8), (90, 9)]);
    assert_eq!(tree.remove(5), Ok(50));
    let root = tree.root.unwrap();
    assert_eq!((root.key, root.value), (8, 80));
    assert!(root.left.is_none());
    assert_eq!(root.right.unwrap().key, 9);
}

#[test]
fn remove_of_the_root_with_two_children_promotes_the_successor() {
    let mut tree = filled(&[(50, 5), (20, 2), (80, 8), (60, 6), (70, 7), (90, 9)]);
    assert_eq!(tree.remove(5), Ok(50));
    assert_eq!(walk(&tree), vec![2, 6, 7, 8, 9]);
    let root = tree.root.unwrap();
    assert_eq!((root.key, root.value), (6, 60));
    assert_eq!(root.left.unwrap().key, 2);
    let right = root.right.unwrap();
    assert_eq!((right.key, right.value), (8, 80));
    assert_eq!(right.right.unwrap().key, 9);
    let moved = right.left.unwrap();
    assert_eq!((moved.key, moved.value), (7, 70));
    assert!(moved.left.is_none() && moved.right.is_none());
}

#[test]
fn remove_with_the_right_child_as_successor() {
    let mut tree = filled(&[(20, 2), (10, 1), (30, 3), (40, 4)]);
    assert_eq!(tree.remove(2), Ok(20));
    let root = tree.root.unwrap();
    assert_eq!((root.key, root.value), (3, 30));
    assert_eq!(root.left.unwrap().key, 1);
    let right = root.right.unwrap();
    assert_eq!((right.key, right.value), (4, 40));
    assert!(right.left.is_none() && right.right.is_none());
}

#[test]
fn two_child_removal_below_the_root() {
    let mut tree = filled(&[(1, 5), (2, 2), (4, 4), (3, 3), (1, 1)]);
    assert_eq!(tree.remove(2), Ok(2));
    assert_eq!(walk(&tree), vec![1, 3, 4, 5]);
    assert!(is_search_tree(&tree.root, None, None));
    let root = tree.root.unwrap();
    assert_eq!((root.key, root.value), (5, 1));
    assert!(root.right.is_none());
    let promoted = root.left.unwrap();
    assert_eq!((promoted.key, promoted.value), (3, 3));
    let below = promoted.left.unwrap();
    assert_eq!((below.key, below.value), (1, 1));
    let above = promoted.right.unwrap();
    assert_eq!((above.key, above.value), (4, 4));
    assert!(above.left.is_none() && above.right.is_none());
}

#[test]
fn failed_remove_changes_nothing_however_often() {
    let mut tree = filled(&[(50, 5), (20, 2), (80, 8), (60, 6), (10, 1)]);
    let before = shape(&tree);
    for _ in 0..10 {
        assert_eq!(tree.remove(7), Err(Errors::KeyNotFound));
        assert_eq!(shape(&tree), before);
        assert_eq!(walk(&tree).len(), 5);
    }
    for key in [i32::MIN, 0, 3, 4, 9, i32::MAX] {
        assert_eq!(tree.remove(key), Err(Errors::KeyNotFound));
        assert_eq!(shape(&tree), before);
    }
}

#[test]
fn order_holds_after_every_operation() {
    let mut tree = BST::new();
    let adds = [40, 20, 60, 10, 30, 50, 70, 25, 35, 65, 5, 45, 55, 15, 75, -10, i32::MAX, i32::MIN];
    let mut bound: Vec<i32> = Vec::new();
    for key in adds {
        assert_eq!(tree.add((key.wrapping_mul(3), key)), Ok(()));
        bound.push(key);
        bound.sort();
        assert_eq!(walk(&tree), bound);
        assert!(is_search_tree(&tree.root, None, None));
    }
    let removes = [20, 40, 999, 70, i32::MIN, 10, 60, 25, 20, 5, i32::MAX, 50];
    for key in removes {
        let was_bound = bound.contains(&key);
        let answer = tree.remove(key);
        if was_bound {
            assert_eq!(answer, Ok(key.wrapping_mul(3)));
            bound.retain(|k| *k != key);
        } else {
            assert_eq!(answer, Err(Errors::KeyNotFound));
        }
        assert_eq!(walk(&tree), bound);
        assert!(is_search_tree(&tree.root, None, None));
        for k in &bound {
            assert_eq!(tree.get(*k), Ok(k.wrapping_mul(3)));
        }
    }
}

#[test]
fn keys_added_in_rising_order_form_a_chain() {
    let mut tree = BST::new();
    for key in 0..500 {
        assert_eq!(tree.add((key * 2, key)), Ok(()));
    }
    for key in 0..500 {
        assert_eq!(tree.get(key), Ok(key * 2));
    }
    assert_eq!(tree.get(500), Err(Errors::KeyNotFound));
    assert_eq!(tree.remove(0), Ok(0));
    assert_eq!(tree.root.as_ref().unwrap().key, 1);
    assert_eq!(tree.remove(499), Ok(998));
    assert_eq!(walk(&tree), (1..499).collect::<Vec<i32>>());
}
