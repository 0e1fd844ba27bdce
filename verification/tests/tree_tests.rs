use tree::link_cut::LinkCutTree;
use tree::node::{Direction, Forest, Node, NodeRef};
use tree::printer::{u64_to_string, Tree};
use tree::search::{RelativePosition, SearchTree};

fn ancestor_values(f: &Forest, n: NodeRef) -> Vec<u64> {
    let mut out = Vec::new();
    let mut cur = n;
    loop {
        out.push(cur.node(f).value);
        match cur.parent(f) {
            Some(p) => cur = p,
            None => return out,
        }
    }
}

#[test]
fn insert() {
    let mut tree = SearchTree::new();
    assert!(tree.insert(1));
    assert!(tree.insert(2));
    assert!(tree.insert(3));
    assert!(!tree.insert(1));
    assert!(!tree.insert(2));
    assert!(!tree.insert(3));
    assert!(tree.insert(30));
    assert!(tree.insert(31));
    assert!(tree.insert(32));
    assert!(tree.insert(33));
    assert!(!tree.insert(33));
    assert!(!tree.insert(31));
    println!("{}", Tree::new(tree.root().unwrap()).render(tree.forest()));
    tree.insert(3);
    println!("{}", Tree::new(tree.root().unwrap()).render(tree.forest()));
    tree.insert(33);
    println!("{}", Tree::new(tree.root().unwrap()).render(tree.forest()));
    tree.insert(1);
    println!("{}", Tree::new(tree.root().unwrap()).render(tree.forest()));
    tree.insert(30);
    println!("{}", Tree::new(tree.root().unwrap()).render(tree.forest()));
}

#[test]
fn print_test() {
    let mut f = Forest::new();
    let root = NodeRef::new(&mut f, Node::new(1));
    let node2 = NodeRef::new(&mut f, Node::new(2));
    let node3 = NodeRef::new(&mut f, Node::new(3));
    root.set_child(&mut f, Direction::Left, Some(node2));
    root.set_child(&mut f, Direction::Right, Some(node3));
    node2.set_parent(&mut f, Some(root));
    node3.set_parent(&mut f, Some(root));
    let node = NodeRef::new(&mut f, Node::new(4));
    let node5 = NodeRef::new(&mut f, Node::new(5));
    node.set_child(&mut f, Direction::Left, Some(node5));
    root.set_parent(&mut f, Some(node));
    node.set_child(&mut f, Direction::Right, Some(root));
    node5.set_parent(&mut f, Some(node));
    let tree = Tree::new(node);
    println!("{}", tree.render(&f));
    node5.splay(&mut f);
    println!("{}", tree.render(&f));
    println!("{}", Tree::new(node5).render(&f));

    let mut g = Forest::new();
    let mut root = NodeRef::new(&mut g, Node::new(5));
    let node3 = root
        .insert_val(&mut g, Direction::Left, 4)
        .insert_val(&mut g, Direction::Left, 2)
        .insert_val(&mut g, Direction::Right, 3);
    root.insert_val(&mut g, Direction::Right, 6);
    println!("{}", Tree::new(root).render(&g));
    node3.splay(&mut g);
    println!("{}", Tree::new(node3).render(&g));
    root = node3.insert_val(&mut g, Direction::Left, 10);
    root.splay(&mut g);
    println!("{}", Tree::new(root).render(&g));
}

#[test]
fn scenario_ascending_inserts() {
    let mut tree = SearchTree::new();
    assert!(tree.insert(1));
    assert!(tree.insert(2));
    assert!(tree.insert(3));
    assert_eq!(tree.in_order(), vec![1, 2, 3]);
    assert!(!tree.insert(1));
    assert_eq!(tree.in_order(), vec![1, 2, 3]);
}

#[test]
fn scenario_more_ascending_inserts() {
    let mut tree = SearchTree::new();
    for v in [1, 2, 3, 30, 31, 32, 33] {
        assert!(tree.insert(v));
    }
    assert_eq!(tree.in_order(), vec![1, 2, 3, 30, 31, 32, 33]);
    assert!(!tree.insert(33));
    assert!(!tree.insert(31));
    assert_eq!(tree.in_order(), vec![1, 2, 3, 30, 31, 32, 33]);
}

#[test]
fn scenario_duplicate_insert_splays_to_root() {
    let mut tree = SearchTree::new();
    for v in [1, 2, 3, 30, 31, 32, 33] {
        assert!(tree.insert(v));
    }
    for v in [3, 33, 1, 30] {
        assert!(!tree.insert(v));
        // the node holding v is now the root: find reaches it at depth 0
        let (node, pos) = tree.find(v).unwrap();
        assert_eq!(pos, RelativePosition::Equal);
        assert_eq!(Some(node), tree.root());
        assert_eq!(node.node(tree.forest()).value, v);
        assert_eq!(tree.in_order(), vec![1, 2, 3, 30, 31, 32, 33]);
    }
}

#[test]
fn scenario_insert_val_chain_and_splay() {
    let mut f = Forest::new();
    let root = NodeRef::new(&mut f, Node::new(5));
    let n3 = root
        .insert_val(&mut f, Direction::Left, 4)
        .insert_val(&mut f, Direction::Left, 2)
        .insert_val(&mut f, Direction::Right, 3);
    assert_eq!(f.in_order_from(root), vec![2, 3, 4, 5]);
    assert_eq!(ancestor_values(&f, n3), vec![3, 2, 4, 5]);
    n3.splay(&mut f);
    assert!(n3.is_root(&f));
    assert_eq!(ancestor_values(&f, n3), vec![3]);
    assert_eq!(f.in_order_from(n3), vec![2, 3, 4, 5]);
}

fn snapshot(f: &Forest) -> Vec<(u64, Option<NodeRef>, Option<NodeRef>, Option<NodeRef>)> {
    let mut out = Vec::new();
    let mut i = 0;
    while i < f.len() {
        let n = NodeRef { i }.node(f);
        out.push((n.value, n.parent, n.left, n.right));
        i += 1;
    }
    out
}

#[test]
fn rotation_right_then_left_restores_shape() {
    // a full little tree: 4 at the top, 2 and 6 below, leaves 1, 3, 5, 7
    let mut f = Forest::new();
    let n4 = NodeRef::new(&mut f, Node::new(4));
    let n2 = n4.insert_val(&mut f, Direction::Left, 2);
    let n6 = n4.insert_val(&mut f, Direction::Right, 6);
    n2.insert_val(&mut f, Direction::Left, 1);
    n2.insert_val(&mut f, Direction::Right, 3);
    n6.insert_val(&mut f, Direction::Left, 5);
    n6.insert_val(&mut f, Direction::Right, 7);
    let before = snapshot(&f);
    let promoted = n4.rotr(&mut f).unwrap();
    assert_eq!(promoted, n2);
    assert_eq!(f.in_order_from(n2), vec![1, 2, 3, 4, 5, 6, 7]);
    let back = n2.rotl(&mut f).unwrap();
    assert_eq!(back, n4);
    assert_eq!(snapshot(&f), before);
}

#[test]
fn rotation_without_child_is_a_no_op() {
    let mut f = Forest::new();
    let n1 = NodeRef::new(&mut f, Node::new(1));
    let n2 = n1.insert_val(&mut f, Direction::Right, 2);
    let before = snapshot(&f);
    assert_eq!(n1.rotr(&mut f), None);
    assert_eq!(n2.rotl(&mut f), None);
    assert_eq!(snapshot(&f), before);
    // rot dispatches by direction: Left rotates left, Right rotates right
    assert_eq!(n1.rot(&mut f, Direction::Left), Some(n2));
}

#[test]
fn find_positions_on_misses() {
    let mut tree = SearchTree::new();
    assert_eq!(tree.find(5), None);
    assert!(tree.insert(10));
    // 5 is missing and smaller: the found node is the greater one
    let (n, pos) = tree.find(5).unwrap();
    assert_eq!(pos, RelativePosition::Greater);
    assert_eq!(n.node(tree.forest()).value, 10);
    // 15 is missing and larger: the found node is the lesser one
    let (n, pos) = tree.find(15).unwrap();
    assert_eq!(pos, RelativePosition::Less);
    assert_eq!(n.node(tree.forest()).value, 10);
    let (_, pos) = tree.find(10).unwrap();
    assert_eq!(pos, RelativePosition::Equal);
}

#[test]
fn descending_inserts_stay_sorted() {
    let mut tree = SearchTree::new();
    for v in [9, 7, 5, 3, 1] {
        assert!(tree.insert(v));
    }
    assert_eq!(tree.in_order(), vec![1, 3, 5, 7, 9]);
}

#[test]
fn interior_insert_appends_at_one_end() {
    // an interior miss hangs the whole old tree under the new root, so the
    // new value lands at one end of the in-order sequence
    let mut tree = SearchTree::new();
    assert!(tree.insert(1));
    assert!(tree.insert(3));
    assert!(tree.insert(2));
    let got = tree.in_order();
    assert!(got == vec![1, 3, 2] || got == vec![2, 1, 3]);
    assert_eq!(tree.root().unwrap().node(tree.forest()).value, 2);
}

#[test]
fn link_primitives_report_old_occupants() {
    let mut f = Forest::new();
    let a = NodeRef::new(&mut f, Node::new(1));
    let b = NodeRef::new(&mut f, Node::new(2));
    let c = NodeRef::new(&mut f, Node::new(3));
    assert_eq!(a.set_child(&mut f, Direction::Left, Some(b)), None);
    assert_eq!(b.set_parent(&mut f, Some(a)), None);
    let (old_child, old_parent) = a.link_child(&mut f, Direction::Left, Some(c));
    assert_eq!(old_child, Some(b));
    assert_eq!(old_parent, None);
    assert_eq!(a.child(&f, Direction::Left), Some(c));
    assert_eq!(c.parent(&f), Some(a));
    assert_eq!(a.direction(&f, c), Some(Direction::Left));
    assert_eq!(a.direction(&f, b), None);
    assert_eq!(c.parent_and_direction(&f), Some((a, Direction::Left)));
    assert!(a.is_root(&f));
    assert!(!c.is_root(&f));
    let (old_parent2, old_child2) = b.link_parent(&mut f, Direction::Right, Some(a));
    assert_eq!(old_parent2, Some(a));
    assert_eq!(old_child2, None);
    assert_eq!(a.child(&f, Direction::Right), Some(b));
}

#[test]
fn direction_opposite_is_total() {
    assert_eq!(Direction::Left.opposite(), Direction::Right);
    assert_eq!(Direction::Right.opposite(), Direction::Left);
}

#[test]
fn splay_with_parent_lookup_matches_splay() {
    let mut f = Forest::new();
    let root = NodeRef::new(&mut f, Node::new(5));
    let n3 = root
        .insert_val(&mut f, Direction::Left, 4)
        .insert_val(&mut f, Direction::Left, 2)
        .insert_val(&mut f, Direction::Right, 3);
    n3.splay_with(&mut f, |ff: &Forest, n: NodeRef| n.parent_and_direction(ff));
    assert!(n3.is_root(&f));
    assert_eq!(f.in_order_from(n3), vec![2, 3, 4, 5]);
}

#[test]
fn expose_splays_to_local_root() {
    let mut lct = LinkCutTree::new();
    let root = NodeRef::new(&mut lct.forest, Node::new(5));
    let n3 = root
        .insert_val(&mut lct.forest, Direction::Left, 4)
        .insert_val(&mut lct.forest, Direction::Left, 2)
        .insert_val(&mut lct.forest, Direction::Right, 3);
    lct.expose(n3);
    assert!(n3.is_root(&lct.forest));
    assert_eq!(lct.forest.in_order_from(n3), vec![2, 3, 4, 5]);
}

#[test]
fn decimal_rendering_is_exact() {
    assert_eq!(u64_to_string(0), "0");
    assert_eq!(u64_to_string(7), "7");
    assert_eq!(u64_to_string(10), "10");
    assert_eq!(u64_to_string(305), "305");
    assert_eq!(u64_to_string(18446744073709551615), "18446744073709551615");
}

#[test]
fn render_is_rotated_in_order() {
    let mut f = Forest::new();
    let n2 = NodeRef::new(&mut f, Node::new(2));
    n2.insert_val(&mut f, Direction::Left, 1);
    n2.insert_val(&mut f, Direction::Right, 3);
    let s = Tree::new(n2).render(&f);
    assert_eq!(s, "  3\n2\n  1\n");
}

#[test]
fn empty_tree_behaviour() {
    let mut tree = SearchTree::new();
    assert_eq!(tree.in_order(), Vec::<u64>::new());
    assert_eq!(tree.root(), None);
    assert_eq!(tree.find(0), None);
    assert!(tree.insert(42));
    assert_eq!(tree.in_order(), vec![42]);
    assert_eq!(tree.root().unwrap().node(tree.forest()).value, 42);
}

#[test]
fn insert_attaches_on_the_reported_side() {
    // new minimum: the old tree hangs as the right child of the new root
    let mut tree = SearchTree::new();
    assert!(tree.insert(5));
    assert!(tree.insert(3));
    let root = tree.root().unwrap();
    assert_eq!(root.node(tree.forest()).value, 3);
    let right = root.child(tree.forest(), Direction::Right).unwrap();
    assert_eq!(right.node(tree.forest()).value, 5);
    assert_eq!(root.child(tree.forest(), Direction::Left), None);
    // new maximum: the old tree hangs as the left child of the new root
    assert!(tree.insert(9));
    let root = tree.root().unwrap();
    assert_eq!(root.node(tree.forest()).value, 9);
    assert!(root.child(tree.forest(), Direction::Left).is_some());
    assert_eq!(root.child(tree.forest(), Direction::Right), None);
}

#[test]
fn insert_val_leaves_opposite_slot_empty() {
    let mut f = Forest::new();
    let root = NodeRef::new(&mut f, Node::new(5));
    let n4 = root.insert_val(&mut f, Direction::Left, 4);
    assert_eq!(n4.child(&f, Direction::Right), None);
    assert_eq!(n4.child(&f, Direction::Left), None);
    assert_eq!(n4.parent(&f), Some(root));
    // splicing in front of an occupied slot hands the subtree down
    let n2 = root.insert_val(&mut f, Direction::Left, 2);
    assert_eq!(n2.child(&f, Direction::Left), Some(n4));
    assert_eq!(n2.child(&f, Direction::Right), None);
    assert_eq!(n4.parent(&f), Some(n2));
    assert_eq!(root.child(&f, Direction::Left), Some(n2));
}

#[test]
fn splaying_a_root_changes_nothing() {
    let mut f = Forest::new();
    let root = NodeRef::new(&mut f, Node::new(5));
    root.insert_val(&mut f, Direction::Left, 4)
        .insert_val(&mut f, Direction::Left, 2);
    let before = snapshot(&f);
    root.splay(&mut f);
    assert_eq!(snapshot(&f), before);
}

#[test]
fn splay_with_refusing_lookup_changes_nothing() {
    let mut f = Forest::new();
    let root = NodeRef::new(&mut f, Node::new(5));
    let n2 = root
        .insert_val(&mut f, Direction::Left, 4)
        .insert_val(&mut f, Direction::Left, 2);
    let before = snapshot(&f);
    n2.splay_with(&mut f, |_ff: &Forest, _n: NodeRef| None);
    assert_eq!(snapshot(&f), before);
    assert!(!n2.is_root(&f));
}
