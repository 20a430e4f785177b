use buddy::frame::Frame;
use buddy::inplace_list::{InplaceList, Node};
use buddy::memory_map::MemoryMapEntry;

#[test]
fn node_holds_its_object() {
    let mut n = Node::new(7u32);
    assert_eq!(*n.as_ref(), 7);
    *n.as_mut() = 9;
    assert_eq!(*n.as_ref(), 9);
    assert!(n.next.is_none() && n.prev.is_none());
}

#[test]
fn list_insert_makes_head() {
    let mut nodes: Vec<Node<u8>> = (0..4).map(Node::new).collect();
    let mut l: InplaceList<u8> = InplaceList::new();
    assert_eq!(l.first(), None);
    l.insert(&mut nodes, 2);
    l.insert(&mut nodes, 0);
    assert_eq!(l.first(), Some(0));
    assert_eq!(nodes[0].next, Some(2));
    assert_eq!(nodes[2].prev, Some(0));
    assert_eq!(nodes[0].prev, None);
}

#[test]
fn list_remove_relinks_neighbours() {
    let mut nodes: Vec<Node<u8>> = (0..4).map(Node::new).collect();
    let mut l: InplaceList<u8> = InplaceList::new();
    l.insert(&mut nodes, 3);
    l.insert(&mut nodes, 1);
    l.insert(&mut nodes, 2);
    l.remove(&mut nodes, 1);
    assert_eq!(nodes[2].next, Some(3));
    assert_eq!(nodes[3].prev, Some(2));
    assert_eq!(nodes[1].next, None);
    assert_eq!(nodes[1].prev, None);
    l.remove(&mut nodes, 2);
    assert_eq!(l.first(), Some(3));
    assert_eq!(nodes[3].prev, None);
    l.remove(&mut nodes, 3);
    assert_eq!(l.first(), None);
}

#[test]
fn frame_buddies_flip_one_bit() {
    let mut f = Frame::new(4);
    assert_eq!(f.level(), 0);
    assert!(f.is_free());
    assert_eq!(f.get_buddy(), 5);
    f.set_level(2);
    assert_eq!(f.get_buddy(), 0);
    assert_eq!(f.buddy_on_level(1), 6);
    assert_eq!(f.buddy_on_level(3), 12);
    f.set_occupied();
    assert!(f.is_occupied());
    f.set_free();
    assert!(!f.is_occupied());
    assert_eq!(f.num(), 4);
}

#[test]
fn frame_ready_needs_free_and_same_level() {
    let a = Frame::new(0);
    let mut b = Frame::new(1);
    assert!(a.ready(&b));
    b.set_level(1);
    assert!(!a.ready(&b));
    b.set_level(0);
    b.set_occupied();
    assert!(!a.ready(&b));
}

#[test]
fn entry_accessors() {
    let e = MemoryMapEntry::new(10, 20, true);
    assert_eq!(e.start(), 10);
    assert_eq!(e.end(), 20);
    assert!(e.is_available());
}
