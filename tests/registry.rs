use hazard::{HazardList, HazardNode, RetireStore};

#[test]
fn new_node_is_leased_and_empty() {
    let n = HazardNode::new();
    assert!(n.active);
    assert!(!n.validated);
    assert_eq!(n.hazard, None);
}

#[test]
fn acquire_release_cycle() {
    let mut l = HazardList::new();
    assert_eq!(l.len(), 0);
    assert_eq!(l.acquire(), 0);
    assert_eq!(l.acquire(), 1);
    l.announce(1, 42);
    assert_eq!(l.get(1).hazard, Some(42));
    l.release(1);
    let n = l.get(1);
    assert!(!n.active);
    assert_eq!(n.hazard, None);
    assert_eq!(l.acquire(), 1);
    assert_eq!(l.len(), 2);
}

#[test]
fn confirm_marks_announcement() {
    let mut l = HazardList::new();
    let r = l.acquire();
    l.announce(r, 3);
    assert!(!l.get(r).validated);
    l.confirm(r);
    assert!(l.get(r).validated);
    assert_eq!(l.get(r).hazard, Some(3));
}

#[test]
fn announced_lists_each_handle_once() {
    let mut l = HazardList::new();
    for _ in 0..4 {
        l.acquire();
    }
    l.announce(0, 5);
    l.announce(1, 5);
    l.announce(3, 9);
    let mut a = l.announced();
    a.sort();
    assert_eq!(a, vec![5, 9]);
}

#[test]
fn scan_keeps_announced_in_order() {
    let mut l = HazardList::new();
    let r = l.acquire();
    l.announce(r, 2);
    let r2 = l.acquire();
    l.announce(r2, 4);
    let mut store = RetireStore::new();
    for h in [1usize, 2, 3, 4, 5] {
        store.push(h);
    }
    let freed = l.scan(&mut store);
    assert_eq!(freed, vec![1, 3, 5]);
    assert_eq!(store.len(), 2);
    let again = l.scan(&mut store);
    assert!(again.is_empty());
    l.release(r);
    assert_eq!(l.scan(&mut store), vec![2]);
    assert_eq!(store.len(), 1);
}

#[test]
fn retain_in_filters_in_one_pass() {
    let mut store = RetireStore::new();
    for h in [7usize, 8, 7, 9, 10] {
        store.push(h);
    }
    let dropped = store.retain_in(&vec![7, 10]);
    assert_eq!(dropped, vec![8, 9]);
    assert_eq!(store.len(), 3);
    let rest = store.retain_in(&vec![]);
    assert_eq!(rest, vec![7, 7, 10]);
    assert_eq!(store.len(), 0);
}
