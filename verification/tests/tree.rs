use bst::bst::BST;

#[test]
fn bst_it_works() {
}

#[test]
fn bst_test_add_on_empty() {
    let mut bst = BST::new();
    bst.add((1, 2)).unwrap();
    assert!(bst.root.is_some());
}

#[test]
fn bst_test_get() {
    let mut bst = BST::new();
    bst.add((1, 2)).unwrap();
    bst.add((2, 4)).unwrap();
    assert!(bst.get(4).unwrap() == 2);
}

#[test]
fn test_get_empty() {
    let bst = BST::new();
    assert!(bst.get(3).is_err());
}

#[test]
fn remove_root() {
    let mut bst = BST::new();
    bst.add((1, 1)).unwrap();
    bst.remove(1).unwrap();
    assert!(bst.root.is_none());
}

#[test]
fn remove_empty() {
    let mut bst = BST::new();
    assert!(bst.remove(1).is_err());
}

#[test]
fn lib_it_works() {
}

#[test]
fn lib_test_add_on_empty() {
    let mut bst = BST::new();
    bst.add((1, 2)).unwrap();
    assert!(bst.root.unwrap().value == 1);
}

#[test]
fn lib_test_add_left() {
    let mut bst = BST::new();
    bst.add((1, 2)).unwrap();
    bst.add((1, 1)).unwrap();
    assert!(bst.root.unwrap().left.unwrap().value == 1);
}

#[test]
fn lib_test_add_left_right() {
    let mut bst = BST::new();
    bst.add((1, 3)).unwrap();
    bst.add((2, 1)).unwrap();
    bst.add((3, 2)).unwrap();
    assert!(bst.root.unwrap().left.unwrap().right.unwrap().value == 3);
}

#[test]
fn lib_test_add_right() {
    let mut bst = BST::new();
    bst.add((1, 1)).unwrap();
    bst.add((1, 2)).unwrap();
    assert!(bst.root.unwrap().right.unwrap().value == 1);
}

#[test]
fn lib_test_add_right_left() {
    let mut bst = BST::new();
    bst.add((1, 1)).unwrap();
    bst.add((2, 3)).unwrap();
    bst.add((3, 2)).unwrap();
    assert!(bst.root.unwrap().right.unwrap().left.unwrap().value == 3);
}

#[test]
fn lib_test_add_duplicate() {
    let mut bst = BST::new();
    bst.add((1, 1)).unwrap();
    assert!(bst.add((12, 1)).is_err());
}
