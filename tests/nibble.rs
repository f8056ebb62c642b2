use patricia_trie::nibble::{Nibble, LEAF_FLAG};
use patricia_trie::node::{empty_children, BranchNode, Node};

#[test]
fn from_raw_splits_bytes() {
    let n = Nibble::from_raw(vec![0xab, 0x01], false);
    assert_eq!(n.len(), 4);
    assert_eq!(n.value_at(0), 0xa);
    assert_eq!(n.value_at(1), 0xb);
    assert_eq!(n.value_at(2), 0x0);
    assert_eq!(n.value_at(3), 0x1);
}

#[test]
fn from_raw_appends_terminator() {
    let n = Nibble::from_raw(vec![0x7f], true);
    assert_eq!(n.len(), 3);
    assert_eq!(n.value_at(0), 7);
    assert_eq!(n.value_at(1), 15);
    assert_eq!(n.value_at(2), LEAF_FLAG);
    assert!(Nibble::from_raw(Vec::new(), false).is_empty());
    assert_eq!(Nibble::from_raw(Vec::new(), true).len(), 1);
}

#[test]
fn match_len_counts_shared_run() {
    let a = Nibble::from_raw(b"test".to_vec(), true);
    let b = Nibble::from_raw(b"test1".to_vec(), true);
    assert_eq!(a.match_len(&b), 8);
    let c = Nibble::from_raw(b"x".to_vec(), false);
    assert_eq!(a.match_len(&c), 1);
    let d = Nibble::from_raw(b"A".to_vec(), false);
    assert_eq!(a.match_len(&d), 0);
    assert_eq!(a.match_len(&a), 9);
}

#[test]
fn slices_take_ranges() {
    let n = Nibble::from_raw(vec![0x12, 0x34], false);
    let tail = n.slice_from(1);
    assert_eq!(tail.len(), 3);
    assert_eq!(tail.value_at(0), 2);
    let mid = n.sub_slice(1, 3);
    assert_eq!(mid.len(), 2);
    assert_eq!(mid.value_at(0), 2);
    assert_eq!(mid.value_at(1), 3);
    assert!(n.slice_from(4).is_empty());
}

#[test]
fn branch_insert_at_slots_and_value() {
    let mut b = BranchNode::new();
    b.insert_at(3, Node::leaf(Nibble::from_raw(Vec::new(), true), b"v".to_vec()));
    assert!(matches!(b.child[3], Node::Leaf(_)));
    assert!(b.value.is_none());
    b.insert_at(LEAF_FLAG, Node::leaf(Nibble::from_raw(Vec::new(), false), b"w".to_vec()));
    assert_eq!(b.value, Some(b"w".to_vec()));
}

#[test]
fn empty_children_has_sixteen_empty_slots() {
    let c = empty_children();
    assert_eq!(c.len(), 16);
    assert!(c.iter().all(|n| matches!(n, Node::Empty)));
    assert!(matches!(Node::branch(), Node::Branch(_)));
    let e = Node::extension(Nibble::from_raw(vec![1], false), Node::Empty);
    assert!(matches!(e, Node::Extension(_)));
    assert!(matches!(Node::branch_with_param(BranchNode::new()), Node::Branch(_)));
}

#[test]
fn concat_and_single_digit() {
    let a = Nibble::from_raw(vec![0x12], false);
    let d = Nibble::from_digit(9);
    let j = d.concat(&a);
    assert_eq!(j.len(), 3);
    assert_eq!(j.value_at(0), 9);
    assert_eq!(j.value_at(1), 1);
    assert_eq!(j.value_at(2), 2);
    assert_eq!(a.concat(&Nibble::from_raw(Vec::new(), false)).len(), 2);
}

#[test]
fn branch_default_has_sixteen_empty_slots() {
    let b = BranchNode::default();
    assert_eq!(b.child.len(), 16);
    assert!(b.child.iter().all(|n| matches!(n, Node::Empty)));
    assert!(b.value.is_none());
}

#[test]
fn nodes_print_for_debugging() {
    let n = Node::leaf(Nibble::from_raw(vec![1], true), b"v".to_vec());
    assert!(format!("{:?}", n).contains("Leaf"));
}
