use kitties::{KittyLinkedItem, LinkedItem, LinkStore, LinkedList, MemoryStore, OwnedKitties};

fn walk_next(l: &LinkedList<MemoryStore>, key: u64, steps: usize) -> Vec<Option<u32>> {
    let mut out = Vec::new();
    let mut at: Option<u32> = None;
    for _ in 0..steps {
        let node = l.get(key, at).unwrap_or(LinkedItem { prev: None, next: None });
        at = node.next;
        out.push(at);
    }
    out
}

fn walk_prev(l: &LinkedList<MemoryStore>, key: u64, steps: usize) -> Vec<Option<u32>> {
    let mut out = Vec::new();
    let mut at: Option<u32> = None;
    for _ in 0..steps {
        let node = l.get(key, at).unwrap_or(LinkedItem { prev: None, next: None });
        at = node.prev;
        out.push(at);
    }
    out
}

#[test]
fn owned_kitties_can_append_values() {
    let mut owned = OwnedKitties::new();
    owned.append(0, 1);

    assert_eq!(
        owned.get(0, None),
        Some(KittyLinkedItem {
            prev: Some(1),
            next: Some(1),
        })
    );

    println!("{:?}", owned.get(0, None));

    assert_eq!(
        owned.get(0, Some(1)),
        Some(KittyLinkedItem {
            prev: None,
            next: None,
        })
    );

    owned.append(0, 2);

    assert_eq!(
        owned.get(0, None),
        Some(KittyLinkedItem {
            prev: Some(2),
            next: Some(1),
        })
    );

    assert_eq!(
        owned.get(0, Some(1)),
        Some(KittyLinkedItem {
            prev: None,
            next: Some(2),
        })
    );

    assert_eq!(
        owned.get(0, Some(2)),
        Some(KittyLinkedItem {
            prev: Some(1),
            next: None,
        })
    );
}

#[test]
fn remove_first_of_two_relinks_head() {
    let mut owned = OwnedKitties::new();
    owned.append(0, 1);
    owned.append(0, 2);
    owned.remove(0, 1);
    assert_eq!(owned.get(0, None), Some(LinkedItem { prev: Some(2), next: Some(2) }));
    assert_eq!(owned.get(0, Some(2)), Some(LinkedItem { prev: None, next: None }));
    assert_eq!(owned.get(0, Some(1)), None);
    assert!(!owned.contains(0, 1));
    assert!(owned.contains(0, 2));
}

#[test]
fn remove_last_remaining_leaves_empty_head() {
    let mut owned = OwnedKitties::new();
    owned.append(3, 9);
    owned.remove(3, 9);
    assert_eq!(owned.get(3, None), Some(LinkedItem { prev: None, next: None }));
    assert_eq!(owned.get(3, Some(9)), None);
    assert!(!owned.contains(3, 9));
    owned.append(3, 4);
    assert_eq!(owned.get(3, None), Some(LinkedItem { prev: Some(4), next: Some(4) }));
    assert_eq!(owned.get(3, Some(4)), Some(LinkedItem { prev: None, next: None }));
}

#[test]
fn remove_middle_links_neighbours() {
    let mut l = LinkedList::new(MemoryStore::new());
    l.append(7, 10);
    l.append(7, 20);
    l.append(7, 30);
    l.remove(7, 20);
    assert_eq!(l.get(7, None), Some(LinkedItem { prev: Some(30), next: Some(10) }));
    assert_eq!(l.get(7, Some(10)), Some(LinkedItem { prev: None, next: Some(30) }));
    assert_eq!(l.get(7, Some(30)), Some(LinkedItem { prev: Some(10), next: None }));
    assert_eq!(l.get(7, Some(20)), None);
}

#[test]
fn remove_tail_moves_head_back() {
    let mut l = LinkedList::new(MemoryStore::new());
    l.append(1, 5);
    l.append(1, 6);
    l.remove(1, 6);
    assert_eq!(l.get(1, None), Some(LinkedItem { prev: Some(5), next: Some(5) }));
    assert_eq!(l.get(1, Some(5)), Some(LinkedItem { prev: None, next: None }));
}

#[test]
fn removing_absent_item_changes_nothing() {
    let mut l = LinkedList::new(MemoryStore::new());
    l.append(2, 1);
    l.append(2, 2);
    let before: Vec<Option<LinkedItem<u32>>> =
        vec![l.get(2, None), l.get(2, Some(1)), l.get(2, Some(2)), l.get(2, Some(3))];
    l.remove(2, 3);
    l.remove(4, 1);
    let after: Vec<Option<LinkedItem<u32>>> =
        vec![l.get(2, None), l.get(2, Some(1)), l.get(2, Some(2)), l.get(2, Some(3))];
    assert_eq!(before, after);
    assert_eq!(l.get(4, None), None);
}

#[test]
fn lists_of_different_keys_are_apart() {
    let mut l = LinkedList::new(MemoryStore::new());
    l.append(1, 5);
    l.append(2, 5);
    l.remove(1, 5);
    assert!(!l.contains(1, 5));
    assert!(l.contains(2, 5));
    assert_eq!(l.get(2, None), Some(LinkedItem { prev: Some(5), next: Some(5) }));
}

#[test]
fn walks_close_the_cycle() {
    let mut l = LinkedList::new(MemoryStore::new());
    for x in [4u32, 8, 15, 16, 23, 42] {
        l.append(0, x);
    }
    l.remove(0, 15);
    l.remove(0, 4);
    l.append(0, 4);
    assert_eq!(
        walk_next(&l, 0, 6),
        vec![Some(8), Some(16), Some(23), Some(42), Some(4), None]
    );
    assert_eq!(
        walk_prev(&l, 0, 6),
        vec![Some(4), Some(42), Some(23), Some(16), Some(8), None]
    );
}

#[test]
fn reachable_items_are_appended_minus_removed() {
    let mut l = LinkedList::new(MemoryStore::new());
    for x in 1u32..=10 {
        l.append(9, x);
    }
    for x in [2u32, 4, 6, 8, 10, 11] {
        l.remove(9, x);
    }
    let mut seen: Vec<u32> = walk_next(&l, 9, 6).into_iter().flatten().collect();
    seen.sort();
    assert_eq!(seen, vec![1, 3, 5, 7, 9]);
    assert_eq!(walk_next(&l, 9, 6)[5], None);
}

#[test]
fn memory_store_keeps_addresses_apart() {
    let mut s = MemoryStore::new();
    let a = LinkedItem { prev: Some(1), next: None };
    let b = LinkedItem { prev: None, next: Some(2) };
    s.insert(0, None, a);
    s.insert(0, Some(0), b);
    s.insert(1, None, b);
    s.insert(u64::MAX, Some(u32::MAX), a);
    assert_eq!(s.get(0, None), Some(a));
    assert_eq!(s.get(0, Some(0)), Some(b));
    assert_eq!(s.get(1, None), Some(b));
    assert_eq!(s.get(u64::MAX, Some(u32::MAX)), Some(a));
    assert_eq!(s.get(u64::MAX, None), None);
    assert!(s.has(0, Some(0)));
    assert_eq!(s.take(0, Some(0)), Some(b));
    assert!(!s.has(0, Some(0)));
    assert_eq!(s.take(0, Some(0)), None);
    assert_eq!(s.get(0, None), Some(a));
}

#[test]
fn read_defaults_to_empty_node() {
    let mut l = LinkedList::new(MemoryStore::new());
    assert_eq!(l.read(0, None), LinkedItem { prev: None, next: None });
    assert_eq!(l.read(0, Some(3)), LinkedItem { prev: None, next: None });
    l.append(0, 3);
    assert_eq!(l.read(0, None), LinkedItem { prev: Some(3), next: Some(3) });
}
