use qtree::node::Node;

#[test]
fn test_can_add_child_nodes_to_an_empty_parent_node() {
    let mut node = Node::new(1);
    node.add_child(Node::new(2));
    node.add_child(Node::new(3));

    assert_eq!(node.children.len(), 2);
}

#[test]
fn test_can_add_child_nodes_to_parent_node_and_read_added_child_node() {
    let mut node = Node::new(1);
    node.add_child(Node::new(2));
    node.add_child(Node::new(3));

    let mut x = Node::new(2);
    x.add_child(Node::new(4));
    node.add_child(x);

    let y = node.get_child(&2).unwrap();
    assert_eq!(y.children.len(), 1);
    assert_eq!(y.contains_child(&4), true);
    assert_eq!(y.get_child(&4).unwrap().key, 4);
}

#[test]
fn test_get_child_returns_none_for_absent_label() {
    let mut node = Node::new(1);
    node.add_child(Node::new(2));

    assert!(node.get_child(&3).is_none());
    assert_eq!(node.contains_child(&3), false);
}

#[test]
fn test_add_child_replaces_an_existing_label() {
    let mut node = Node::new(1);
    let mut old_child = Node::new(2);
    old_child.add_child(Node::new(9));
    node.add_child(old_child);
    assert_eq!(node.get_child(&2).unwrap().children.len(), 1);

    // last write wins: the fresh node for label 2 displaces the old subtree
    node.add_child(Node::new(2));
    assert_eq!(node.children.len(), 1);
    assert_eq!(node.get_child(&2).unwrap().children.len(), 0);
}
