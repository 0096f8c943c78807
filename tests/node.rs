use scapegoat::node::{Node, NodeGetHelper, NodeRebuildHelper};

#[test]
fn node_new_has_no_children() {
    let n = Node::new(5u8, "v");
    assert_eq!(n.key(), &5);
    assert_eq!(n.val(), &"v");
    assert_eq!(n.left_idx(), None);
    assert_eq!(n.right_idx(), None);
}

#[test]
fn node_setters() {
    let mut n = Node::new(5u8, 1u8);
    n.set_left_idx(Some(65535));
    n.set_right_idx(Some(7));
    n.set_val(2);
    n.set_key(6);
    assert_eq!(n.left_idx(), Some(65535));
    assert_eq!(n.right_idx(), Some(7));
    assert_eq!((n.key(), n.val()), (&6, &2));
    let (k, v) = n.get_mut();
    *v = 9;
    assert_eq!(*k, 6);
    assert_eq!(n.val(), &9);
}

#[test]
fn get_helper_round_trips() {
    let h = NodeGetHelper::new(Some(3), Some(1), true);
    assert_eq!(h.node_idx(), Some(3));
    assert_eq!(h.parent_idx(), Some(1));
    assert!(h.is_right_child());
    let miss = NodeGetHelper::new(None, None, false);
    assert_eq!(miss.node_idx(), None);
}

#[test]
fn rebuild_helper_middle() {
    let h = NodeRebuildHelper::new(2, 7);
    assert_eq!((h.low_idx, h.high_idx, h.mid_idx), (2, 7, 4));
    let one = NodeRebuildHelper::new(3, 3);
    assert_eq!(one.mid_idx, 3);
}
