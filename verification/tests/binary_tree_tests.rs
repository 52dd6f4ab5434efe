use dsa_rs::binary_tree::generate_symmetrical_iteratively;
use dsa_rs::binary_tree::invert_in_place_iteratively;
use dsa_rs::binary_tree::Node;

#[test]
fn test_generate_three_levels() {
    let tree = generate_symmetrical_iteratively(3);
    assert_eq!(tree.value, 1);
    let left = tree.left.as_ref().expect("left child");
    let right = tree.right.as_ref().expect("right child");
    assert_eq!(left.value, 2);
    assert_eq!(right.value, 3);
    assert_eq!(left.left.as_ref().expect("leaf").value, 4);
    assert_eq!(left.right.as_ref().expect("leaf").value, 5);
    assert_eq!(right.left.as_ref().expect("leaf").value, 6);
    assert_eq!(right.right.as_ref().expect("leaf").value, 7);
    assert!(left.left.as_ref().unwrap().left.is_none());
}

#[test]
fn test_generate_zero_levels() {
    let tree = generate_symmetrical_iteratively(0);
    assert_eq!(tree.value, 0);
    assert!(tree.left.is_none());
    assert!(tree.right.is_none());
}

#[test]
fn test_invert_in_place() {
    let mut tree = generate_symmetrical_iteratively(3);
    invert_in_place_iteratively(&mut tree);
    assert_eq!(tree.value, 1);
    let left = tree.left.as_ref().expect("left child");
    let right = tree.right.as_ref().expect("right child");
    assert_eq!(left.value, 3);
    assert_eq!(right.value, 2);
    assert_eq!(left.left.as_ref().expect("leaf").value, 7);
    assert_eq!(left.right.as_ref().expect("leaf").value, 6);
    assert_eq!(right.left.as_ref().expect("leaf").value, 5);
    assert_eq!(right.right.as_ref().expect("leaf").value, 4);
}

#[test]
fn test_invert_twice_restores_shape() {
    let mut tree = generate_symmetrical_iteratively(2);
    invert_in_place_iteratively(&mut tree);
    invert_in_place_iteratively(&mut tree);
    assert_eq!(tree.value, 1);
    assert_eq!(tree.left.as_ref().expect("left").value, 2);
    assert_eq!(tree.right.as_ref().expect("right").value, 3);
}

#[test]
fn test_node_new_with_value() {
    let node = Node::new_with_value(42);
    assert_eq!(node.value, 42);
    assert!(node.left.is_none());
    assert!(node.right.is_none());
}
