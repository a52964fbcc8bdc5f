use rxv6::memory::kmalloc::list::{BareList, Node};
use rxv6::memory::phys::PhysMem;

const BASE: u64 = 0x8020_0000;

fn block(i: u64) -> u64 {
    Node::from_addr(BASE + 64 * i)
}

#[test]
fn new_list_is_empty() {
    let list = BareList::new();
    assert!(list.is_empty());
    assert_eq!(list.head(), None);
    assert_eq!(Node::new(), Node { next: None, prev: None });
}

#[test]
fn push_links_both_ways() {
    let mut mem = PhysMem::new(BASE, 1).unwrap();
    let mut list = BareList::new();
    list.push(&mut mem, block(1));
    assert_eq!(list.head(), Some(block(1)));
    assert_eq!(Node::load(&mem, block(1)), Node::new());
    list.push(&mut mem, block(2));
    list.push(&mut mem, block(3));
    assert_eq!(list.head(), Some(block(3)));
    assert_eq!(Node::load(&mem, block(3)), Node { next: Some(block(2)), prev: None });
    assert_eq!(Node::load(&mem, block(2)), Node { next: Some(block(1)), prev: Some(block(3)) });
    assert_eq!(Node::load(&mem, block(1)), Node { next: None, prev: Some(block(2)) });
    assert_eq!(mem.read(block(2)), block(1));
    assert_eq!(mem.read(block(2) + 8), block(3));
    assert!(!list.is_empty());
}

#[test]
fn pop_takes_the_head() {
    let mut mem = PhysMem::new(BASE, 1).unwrap();
    let mut list = BareList::new();
    assert_eq!(list.pop(&mut mem), None);
    for i in 1..=3 {
        list.push(&mut mem, block(i));
    }
    assert_eq!(list.pop(&mut mem), Some(block(3)));
    assert_eq!(list.head(), Some(block(2)));
    assert_eq!(Node::load(&mem, block(2)).prev, None);
    assert_eq!(list.pop(&mut mem), Some(block(2)));
    assert_eq!(list.pop(&mut mem), Some(block(1)));
    assert_eq!(list.pop(&mut mem), None);
    assert!(list.is_empty());
}

#[test]
fn contains_finds_what_is_on_the_list() {
    let mut mem = PhysMem::new(BASE, 1).unwrap();
    let mut list = BareList::new();
    assert!(!list.contains(&mem, block(1)));
    for i in 1..=3 {
        list.push(&mut mem, block(i));
    }
    for i in 1..=3 {
        assert!(list.contains(&mem, block(i)));
    }
    assert!(!list.contains(&mem, block(4)));
    assert!(!list.contains(&mem, 0));
}

#[test]
fn remove_from_the_middle_and_the_ends() {
    let mut mem = PhysMem::new(BASE, 1).unwrap();
    let mut list = BareList::new();
    for i in 1..=5 {
        list.push(&mut mem, block(i));
    }
    // the list is 5 4 3 2 1
    assert!(!list.remove(&mut mem, block(6)));
    assert!(list.remove(&mut mem, block(3)));
    assert!(!list.remove(&mut mem, block(3)));
    assert_eq!(Node::load(&mem, block(4)), Node { next: Some(block(2)), prev: Some(block(5)) });
    assert_eq!(Node::load(&mem, block(2)), Node { next: Some(block(1)), prev: Some(block(4)) });
    assert!(list.remove(&mut mem, block(5)));
    assert_eq!(list.head(), Some(block(4)));
    assert_eq!(Node::load(&mem, block(4)).prev, None);
    assert!(list.remove(&mut mem, block(1)));
    assert_eq!(Node::load(&mem, block(2)).next, None);
    assert!(list.contains(&mem, block(4)));
    assert!(list.contains(&mem, block(2)));
    assert!(!list.contains(&mem, block(1)));
    assert_eq!(list.pop(&mut mem), Some(block(4)));
    assert!(list.remove(&mut mem, block(2)));
    assert!(list.is_empty());
    assert_eq!(list.pop(&mut mem), None);
}

#[test]
fn store_and_load() {
    let mut mem = PhysMem::new(BASE, 1).unwrap();
    let node = Node { next: Some(0x10), prev: Some(0x20) };
    node.store(&mut mem, block(2));
    assert_eq!(mem.read(block(2)), 0x10);
    assert_eq!(mem.read(block(2) + 8), 0x20);
    assert_eq!(mem.read(block(2) + 16), 0);
    assert_eq!(Node::load(&mem, block(2)), node);
}
