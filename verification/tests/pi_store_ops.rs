use handle_deque::{Deque, IndexMap, Node, PiSlabStore};

fn collect(deque: &Deque<u64, PiSlabStore<u64>>, store: &PiSlabStore<u64>) -> Vec<u64> {
    let mut out = Vec::new();
    let mut it = deque.iter(store);
    while let Some(v) = it.next() {
        out.push(*v);
    }
    out
}

#[test]
fn pi_empty_deque_yields_absent() {
    let mut store: PiSlabStore<u64> = PiSlabStore::new();
    let mut deque: Deque<u64, PiSlabStore<u64>> = Deque::new();
    assert_eq!(deque.pop_front(&mut store), None);
    assert_eq!(deque.pop_back(&mut store), None);
    assert_eq!(deque.len(), 0);
}

#[test]
fn pi_push_back_order_and_pop_front() {
    let mut store: PiSlabStore<u64> = PiSlabStore::new();
    let mut deque: Deque<u64, PiSlabStore<u64>> = Deque::new();
    deque.push_back(1, &mut store);
    deque.push_back(2, &mut store);
    deque.push_back(3, &mut store);
    assert_eq!(collect(&deque, &store), vec![1, 2, 3]);
    assert_eq!(deque.pop_front(&mut store), Some(1));
    assert_eq!(deque.len(), 2);
    assert_eq!(collect(&deque, &store), vec![2, 3]);
}

#[test]
fn pi_push_front_order_and_pop_back() {
    let mut store: PiSlabStore<u64> = PiSlabStore::new();
    let mut deque: Deque<u64, PiSlabStore<u64>> = Deque::new();
    deque.push_front(1, &mut store);
    deque.push_front(2, &mut store);
    assert_eq!(collect(&deque, &store), vec![2, 1]);
    assert_eq!(deque.pop_back(&mut store), Some(1));
    assert_eq!(collect(&deque, &store), vec![2]);
}

#[test]
fn pi_remove_interior_keeps_ends() {
    let mut store: PiSlabStore<u64> = PiSlabStore::new();
    let mut deque: Deque<u64, PiSlabStore<u64>> = Deque::new();
    deque.push_back(1, &mut store);
    let mid = deque.push_back(2, &mut store);
    deque.push_back(3, &mut store);
    let first = deque.get_first();
    let last = deque.get_last();
    assert_eq!(deque.remove(mid, &mut store), 2);
    assert_eq!(collect(&deque, &store), vec![1, 3]);
    assert_eq!(deque.get_first(), first);
    assert_eq!(deque.get_last(), last);
}

#[test]
fn pi_try_remove_unknown_handle_changes_nothing() {
    let mut store: PiSlabStore<u64> = PiSlabStore::new();
    let mut deque: Deque<u64, PiSlabStore<u64>> = Deque::new();
    deque.push_back(5, &mut store);
    deque.push_back(6, &mut store);
    assert_eq!(deque.try_remove(999, &mut store), None);
    assert_eq!(deque.len(), 2);
    assert_eq!(collect(&deque, &store), vec![5, 6]);
}

#[test]
fn pi_positional_inserts() {
    let mut store: PiSlabStore<u64> = PiSlabStore::new();
    let mut deque: Deque<u64, PiSlabStore<u64>> = Deque::new();
    let a = deque.push_back(1, &mut store);
    let c = deque.push_back(3, &mut store);
    deque.push_to_back(2, a, &mut store);
    deque.push_to_front(0, a, &mut store);
    deque.push_to_back(4, c, &mut store);
    assert_eq!(collect(&deque, &store), vec![0, 1, 2, 3, 4]);
}

#[test]
fn pi_clear_then_reuse() {
    let mut store: PiSlabStore<u64> = PiSlabStore::new();
    let mut deque: Deque<u64, PiSlabStore<u64>> = Deque::new();
    for v in 0..5u64 {
        deque.push_back(v, &mut store);
    }
    deque.clear(&mut store);
    assert_eq!(deque.len(), 0);
    assert_eq!(deque.get_first(), 0);
    assert_eq!(deque.get_last(), 0);
    assert_eq!(collect(&deque, &store), Vec::<u64>::new());
    deque.push_back(7, &mut store);
    deque.push_back(8, &mut store);
    assert_eq!(collect(&deque, &store), vec![7, 8]);
}

#[test]
fn pi_iteration_is_repeatable() {
    let mut store: PiSlabStore<u64> = PiSlabStore::new();
    let mut deque: Deque<u64, PiSlabStore<u64>> = Deque::new();
    for v in [4u64, 8, 15, 16, 23, 42] {
        deque.push_back(v, &mut store);
    }
    assert_eq!(collect(&deque, &store), collect(&deque, &store));
}

#[test]
fn pi_store_trait_roundtrip() {
    let mut store: PiSlabStore<u64> = PiSlabStore::new();
    let key = store.insert(Node::new(11, 0, 0));
    assert_ne!(key, 0);
    assert!(store.contains(key));
    assert!(!store.contains(0));
    assert!(!store.contains(key + 1));
    assert_eq!(*store.get_elem(key), 11);
    store.set_pre(key, 4);
    store.set_next(key, 6);
    assert_eq!(store.get_pre(key), 4);
    assert_eq!(store.get_next(key), 6);
    let node = store.remove(key);
    assert_eq!(node.elem, 11);
    assert_eq!(node.pre, 4);
    assert_eq!(node.next, 6);
    assert!(!store.contains(key));
}

#[test]
fn pi_mixed_workout() {
    let mut store: PiSlabStore<u64> = PiSlabStore::new();
    let mut deque: Deque<u64, PiSlabStore<u64>> = Deque::new();
    let mut handles = Vec::new();
    for v in 0..8u64 {
        handles.push(deque.push_back(v, &mut store));
    }
    assert_eq!(deque.remove(handles[3], &mut store), 3);
    assert_eq!(deque.remove(handles[0], &mut store), 0);
    assert_eq!(deque.remove(handles[7], &mut store), 7);
    assert_eq!(collect(&deque, &store), vec![1, 2, 4, 5, 6]);
    deque.push_front(100, &mut store);
    deque.push_back(200, &mut store);
    assert_eq!(collect(&deque, &store), vec![100, 1, 2, 4, 5, 6, 200]);
    assert_eq!(deque.pop_front_unchecked(&mut store), 100);
    assert_eq!(deque.pop_back_unchecked(&mut store), 200);
    assert_eq!(deque.len(), 5);
}
