use chat_relay::registry::{Handle, LLNode, LinkedList};

fn walk(list: &LinkedList<u32>) -> Vec<u32> {
    list.targets().iter().map(|h| *list.get(h).unwrap()).collect()
}

#[test]
fn new_list_is_empty() {
    let list: LinkedList<u32> = LinkedList::new();
    assert_eq!(list.size(), 0);
    assert!(list.targets().is_empty());
}

#[test]
fn node_new_keeps_links() {
    let n = LLNode::new(5u32, Some(3), None);
    assert_eq!(n.stream, 5);
    assert_eq!(n.next, Some(3));
    assert_eq!(n.prev, None);
}

#[test]
fn add_puts_newest_first() {
    let mut list = LinkedList::new();
    let a = list.add(1u32);
    let b = list.add(2u32);
    let c = list.add(3u32);
    assert_eq!(list.size(), 3);
    assert_eq!(list.targets(), vec![c, b, a]);
    assert_eq!(walk(&list), vec![3, 2, 1]);
}

#[test]
fn remove_middle_keeps_order() {
    let mut list = LinkedList::new();
    let a = list.add(1u32);
    let b = list.add(2u32);
    let c = list.add(3u32);
    list.remove(&b);
    assert_eq!(list.size(), 2);
    assert_eq!(list.targets(), vec![c, a]);
    assert_eq!(walk(&list), vec![3, 1]);
}

#[test]
fn remove_head_and_tail() {
    let mut list = LinkedList::new();
    let a = list.add(1u32);
    let b = list.add(2u32);
    let c = list.add(3u32);
    list.remove(&c);
    assert_eq!(walk(&list), vec![2, 1]);
    list.remove(&a);
    assert_eq!(walk(&list), vec![2]);
    assert_eq!(list.targets(), vec![b]);
}

#[test]
fn remove_only_entry_empties() {
    let mut list = LinkedList::new();
    let a = list.add(9u32);
    list.remove(&a);
    assert_eq!(list.size(), 0);
    assert!(list.targets().is_empty());
    assert!(list.get(&a).is_none());
}

#[test]
fn second_removal_is_noop() {
    let mut list = LinkedList::new();
    let a = list.add(1u32);
    let b = list.add(2u32);
    list.remove(&a);
    list.remove(&a);
    assert_eq!(list.size(), 1);
    assert_eq!(list.targets(), vec![b]);
}

#[test]
fn stale_handle_does_not_hit_reused_slot() {
    let mut list = LinkedList::new();
    let a = list.add(1u32);
    list.remove(&a);
    let b = list.add(2u32);
    assert_eq!(b.slot, a.slot);
    assert_ne!(b, a);
    list.remove(&a);
    assert_eq!(list.size(), 1);
    assert_eq!(list.get(&b), Some(&2));
    assert!(list.get(&a).is_none());
}

#[test]
fn unknown_handle_is_ignored() {
    let mut list = LinkedList::new();
    list.add(1u32);
    list.remove(&Handle { slot: 40, stamp: 0 });
    list.remove(&Handle { slot: 0, stamp: 77 });
    assert_eq!(list.size(), 1);
}

#[test]
fn interleaved_connects_and_disconnects_count_open() {
    let mut list = LinkedList::new();
    let mut open: Vec<Handle> = Vec::new();
    for i in 0..40u32 {
        let h = list.add(i);
        open.push(h);
        if i % 3 == 2 {
            let gone = open.remove((i as usize * 7) % open.len());
            list.remove(&gone);
            list.remove(&gone);
        }
        assert_eq!(list.size(), open.len());
    }
    while let Some(h) = open.pop() {
        list.remove(&h);
        assert_eq!(list.size(), open.len());
    }
    assert_eq!(list.size(), 0);
}

#[test]
fn remove_all_drops_only_listed() {
    let mut list = LinkedList::new();
    let a = list.add(1u32);
    let b = list.add(2u32);
    let c = list.add(3u32);
    let d = list.add(4u32);
    list.remove_all(&vec![b, d, b]);
    assert_eq!(list.targets(), vec![c, a]);
    assert_eq!(walk(&list), vec![3, 1]);
    list.remove_all(&Vec::new());
    assert_eq!(list.size(), 2);
}

#[test]
fn can_add_on_fresh_list() {
    let list: LinkedList<u32> = LinkedList::new();
    assert!(list.can_add());
}
