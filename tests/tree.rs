use html_tree::tree::cursor::Cursor;
use html_tree::tree::node::Node;
use html_tree::tree::{Tree, TreeError};

fn children(tree: &Tree<i32>, p: usize) -> Vec<usize> {
    let mut out = Vec::new();
    let mut cur = tree.get(p).unwrap().child;
    while let Some(c) = cur {
        out.push(c);
        cur = tree.get(c).unwrap().next_sibling;
    }
    out
}

fn children_backwards(tree: &Tree<i32>, p: usize) -> Vec<usize> {
    let mut out = Vec::new();
    let mut cur = tree.last_child(p);
    while let Some(c) = cur {
        out.push(c);
        cur = tree.get(c).unwrap().prev_sibling;
    }
    out
}

#[test]
fn new_tree_holds_one_unlinked_root() {
    let tree = Tree::new(Node::new(7));
    assert_eq!(tree.len(), 1);
    let root = tree.get(0).unwrap();
    assert_eq!(root.value, 7);
    assert_eq!(root.parent, None);
    assert_eq!(root.child, None);
    assert!(tree.get(1).is_none());
    assert_eq!(tree.first_node_id(), Ok(0));
}

#[test]
fn sibling_chain_visits_children_in_order_both_ways() {
    let mut tree = Tree::new(Node::new(0));
    let a = tree.create_node(1);
    let b = tree.create_node(2);
    let c = tree.create_node(3);
    assert_eq!((a, b, c), (1, 2, 3));
    assert_eq!(tree.append_child(0, a), Ok(()));
    assert_eq!(tree.append_child(0, b), Ok(()));
    assert_eq!(tree.append_child(0, c), Ok(()));
    assert_eq!(children(&tree, 0), vec![1, 2, 3]);
    assert_eq!(children_backwards(&tree, 0), vec![3, 2, 1]);
    assert_eq!(tree.get(1).unwrap().prev_sibling, None);
    assert_eq!(tree.get(3).unwrap().next_sibling, None);
    for id in [1, 2, 3] {
        assert_eq!(tree.get(id).unwrap().parent, Some(0));
    }
}

#[test]
fn append_child_errors() {
    let mut tree = Tree::new(Node::new(0));
    let a = tree.create_node(1);
    assert_eq!(tree.append_child(0, 9), Err(TreeError::NotFound));
    assert_eq!(tree.append_child(9, a), Err(TreeError::NotFound));
    assert_eq!(tree.append_child(0, a), Ok(()));
    assert_eq!(tree.append_child(0, a), Err(TreeError::AlreadyAttached));
}

#[test]
fn insert_before_links_in_place() {
    let mut tree = Tree::new(Node::new(0));
    let a = tree.create_node(1);
    let b = tree.create_node(2);
    let c = tree.create_node(3);
    tree.append_child(0, a).unwrap();
    tree.append_child(0, c).unwrap();
    assert_eq!(tree.insert_before(c, b), Ok(()));
    assert_eq!(children(&tree, 0), vec![a, b, c]);
    assert_eq!(children_backwards(&tree, 0), vec![c, b, a]);
    let d = tree.create_node(4);
    assert_eq!(tree.insert_before(a, d), Ok(()));
    assert_eq!(children(&tree, 0), vec![d, a, b, c]);
    assert_eq!(tree.get(0).unwrap().child, Some(d));
}

#[test]
fn insert_before_errors() {
    let mut tree = Tree::new(Node::new(0));
    let a = tree.create_node(1);
    let b = tree.create_node(2);
    assert_eq!(tree.insert_before(0, a), Err(TreeError::NoParent));
    assert_eq!(tree.insert_before(a, 42), Err(TreeError::NotFound));
    tree.append_child(0, a).unwrap();
    tree.append_child(0, b).unwrap();
    assert_eq!(tree.insert_before(a, b), Err(TreeError::AlreadyAttached));
}

#[test]
fn detach_keeps_subtree() {
    let mut tree = Tree::new(Node::new(0));
    let a = tree.create_node(1);
    let b = tree.create_node(2);
    let c = tree.create_node(3);
    let leaf = tree.create_node(4);
    tree.append_child(0, a).unwrap();
    tree.append_child(0, b).unwrap();
    tree.append_child(0, c).unwrap();
    tree.append_child(b, leaf).unwrap();
    assert_eq!(tree.detach(b), Ok(()));
    assert_eq!(children(&tree, 0), vec![a, c]);
    assert_eq!(children_backwards(&tree, 0), vec![c, a]);
    let nb = tree.get(b).unwrap();
    assert_eq!((nb.parent, nb.prev_sibling, nb.next_sibling), (None, None, None));
    assert_eq!(children(&tree, b), vec![leaf]);
    assert_eq!(tree.detach(b), Err(TreeError::NotAttached));
    assert_eq!(tree.detach(99), Err(TreeError::NotFound));
}

#[test]
fn reparent_children_moves_all_in_order() {
    let mut tree = Tree::new(Node::new(0));
    let from = tree.create_node(1);
    let to = tree.create_node(2);
    tree.append_child(0, from).unwrap();
    tree.append_child(0, to).unwrap();
    let kept = tree.create_node(3);
    tree.append_child(to, kept).unwrap();
    let moved: Vec<usize> = (0..3).map(|v| tree.create_node(10 + v)).collect();
    for &m in &moved {
        tree.append_child(from, m).unwrap();
    }
    assert_eq!(tree.reparent_children(from, to), Ok(()));
    assert_eq!(children(&tree, from), Vec::<usize>::new());
    assert_eq!(children(&tree, to), vec![kept, moved[0], moved[1], moved[2]]);
    for &m in &moved {
        assert_eq!(tree.get(m).unwrap().parent, Some(to));
    }
    assert_eq!(tree.reparent_children(from, 50), Err(TreeError::NotFound));
    assert_eq!(tree.reparent_children(to, to), Ok(()));
    assert_eq!(children(&tree, to).len(), 4);
}

#[test]
fn set_value_swaps_payload() {
    let mut tree = Tree::new(Node::new(0));
    assert_eq!(tree.set_value(0, 5), Ok(0));
    assert_eq!(tree.get(0).unwrap().value, 5);
    assert_eq!(tree.set_value(3, 1), Err(TreeError::NotFound));
}

#[test]
fn cursor_moves_and_reports_missing_relatives() {
    let mut tree = Tree::new(Node::new(0));
    let a = tree.create_node(1);
    let b = tree.create_node(2);
    tree.append_child(0, a).unwrap();
    tree.append_child(0, b).unwrap();
    let mut cur = Cursor::new(&tree, 0).unwrap();
    assert_eq!(cur.peek_parent(), None);
    assert_eq!(cur.parent(), Err(TreeError::NoSuchRelative));
    assert_eq!(cur.id(), 0);
    assert_eq!(cur.last_child(), Ok(()));
    assert_eq!(cur.id(), b);
    assert_eq!(*cur.get(), 2);
    assert_eq!(cur.next_sibling(), Err(TreeError::NoSuchRelative));
    assert_eq!(cur.prev_sibling(), Ok(()));
    assert_eq!(cur.id(), a);
    assert_eq!(cur.prev_sibling(), Err(TreeError::NoSuchRelative));
    assert_eq!(cur.peek_parent(), Some(0));
    assert_eq!(cur.parent(), Ok(()));
    assert_eq!(cur.first_child(), Ok(()));
    assert_eq!(cur.id(), a);
    assert_eq!(cur.first_child(), Err(TreeError::NoSuchRelative));
    assert!(Cursor::new(&tree, 3).is_err());
}

#[test]
fn edits_refuse_self_parenting() {
    let mut tree = Tree::new(Node::new(0));
    let a = tree.create_node(1);
    assert_eq!(tree.append_child(a, a), Err(TreeError::Cycle));
    let b = tree.create_node(2);
    tree.append_child(a, b).unwrap();
    assert_eq!(tree.insert_before(b, a), Err(TreeError::Cycle));
    assert_eq!(tree.reparent_children(a, b), Err(TreeError::Cycle));
    assert_eq!(tree.get(b).unwrap().parent, Some(a));
}
