use binary_tree::samples::Utils;
use binary_tree::tree::Node;

#[test]
fn test_print() {
    let setup = Utils::new();
    let balanced_tree_base = setup.balanced_tree_base;

    println!("arr {:#?}", balanced_tree_base);
}

#[test]
fn tree_recursive_test_print() {
    let setup = Utils::new();
    let balanced_tree_base = setup.balanced_tree_base;

    println!("arr {:#?}", balanced_tree_base);
}

#[test]
fn tree_test_print() {
    let mut tree = Node::new(1);
    tree.insert(2);
    tree.insert(3);

    println!("arr {:#?}", tree);
}

#[test]
fn test_print_one() {
    let tree = Node::new(1).set_left(2).set_right(3);

    println!("arr {:#?}", tree);
}

#[test]
fn test_print_two() {
    let mut tree = Node::new("root");
    tree.set_left_no_return("left");
    tree.set_right_no_return("right");

    println!("arr {:#?}", tree);
}

#[test]
fn debug_shows_every_node() {
    let tree = Node::new(2).set_left(1).set_right(3);

    assert_eq!(
        "Node { value: 2, left: Some(Node { value: 1, left: None, right: None }), \
         right: Some(Node { value: 3, left: None, right: None }) }",
        format!("{:?}", tree)
    );
}
