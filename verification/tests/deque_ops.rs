use handle_deque::{Deque, IndexMap, Node, SlabStore};

fn collect(deque: &Deque<u64, SlabStore<u64>>, store: &SlabStore<u64>) -> Vec<u64> {
    let mut out = Vec::new();
    let mut it = deque.iter(store);
    while let Some(v) = it.next() {
        out.push(*v);
    }
    out
}

#[test]
fn node_new_fills_fields() {
    let node = Node::new(7u64, 3, 9);
    assert_eq!(node.elem, 7);
    assert_eq!(node.pre, 3);
    assert_eq!(node.next, 9);
}

#[test]
fn empty_deque_yields_absent() {
    let mut store: SlabStore<u64> = SlabStore::new();
    let mut deque: Deque<u64, SlabStore<u64>> = Deque::new();
    assert_eq!(deque.pop_front(&mut store), None);
    assert_eq!(deque.pop_back(&mut store), None);
    assert_eq!(deque.len(), 0);
    assert_eq!(deque.get_first(), 0);
    assert_eq!(deque.get_last(), 0);
}

#[test]
fn push_back_order_and_pop_front() {
    let mut store: SlabStore<u64> = SlabStore::new();
    let mut deque: Deque<u64, SlabStore<u64>> = Deque::new();
    deque.push_back(1, &mut store);
    deque.push_back(2, &mut store);
    deque.push_back(3, &mut store);
    assert_eq!(collect(&deque, &store), vec![1, 2, 3]);
    assert_eq!(deque.pop_front(&mut store), Some(1));
    assert_eq!(deque.len(), 2);
    assert_eq!(collect(&deque, &store), vec![2, 3]);
}

#[test]
fn push_front_order_and_pop_back() {
    let mut store: SlabStore<u64> = SlabStore::new();
    let mut deque: Deque<u64, SlabStore<u64>> = Deque::new();
    deque.push_front(1, &mut store);
    deque.push_front(2, &mut store);
    assert_eq!(collect(&deque, &store), vec![2, 1]);
    assert_eq!(deque.pop_back(&mut store), Some(1));
    assert_eq!(collect(&deque, &store), vec![2]);
}

#[test]
fn remove_interior_keeps_ends() {
    let mut store: SlabStore<u64> = SlabStore::new();
    let mut deque: Deque<u64, SlabStore<u64>> = Deque::new();
    deque.push_back(1, &mut store);
    let mid = deque.push_back(2, &mut store);
    deque.push_back(3, &mut store);
    let first = deque.get_first();
    let last = deque.get_last();
    assert_eq!(deque.remove(mid, &mut store), 2);
    assert_eq!(collect(&deque, &store), vec![1, 3]);
    assert_eq!(deque.get_first(), first);
    assert_eq!(deque.get_last(), last);
    assert_eq!(deque.len(), 2);
}

#[test]
fn remove_head_and_tail_and_only() {
    let mut store: SlabStore<u64> = SlabStore::new();
    let mut deque: Deque<u64, SlabStore<u64>> = Deque::new();
    let a = deque.push_back(10, &mut store);
    let b = deque.push_back(20, &mut store);
    let c = deque.push_back(30, &mut store);
    assert_eq!(deque.remove(a, &mut store), 10);
    assert_eq!(collect(&deque, &store), vec![20, 30]);
    assert_eq!(deque.get_first(), b);
    assert_eq!(deque.remove(c, &mut store), 30);
    assert_eq!(collect(&deque, &store), vec![20]);
    assert_eq!(deque.get_first(), b);
    assert_eq!(deque.get_last(), b);
    assert_eq!(deque.remove(b, &mut store), 20);
    assert_eq!(deque.len(), 0);
    assert_eq!(deque.get_first(), 0);
    assert_eq!(deque.get_last(), 0);
}

#[test]
fn try_remove_unknown_handle_changes_nothing() {
    let mut store: SlabStore<u64> = SlabStore::new();
    let mut deque: Deque<u64, SlabStore<u64>> = Deque::new();
    deque.push_back(5, &mut store);
    deque.push_back(6, &mut store);
    let first = deque.get_first();
    let last = deque.get_last();
    assert_eq!(deque.try_remove(999, &mut store), None);
    assert_eq!(deque.get_first(), first);
    assert_eq!(deque.get_last(), last);
    assert_eq!(deque.len(), 2);
    assert_eq!(collect(&deque, &store), vec![5, 6]);
}

#[test]
fn try_remove_live_handle_removes() {
    let mut store: SlabStore<u64> = SlabStore::new();
    let mut deque: Deque<u64, SlabStore<u64>> = Deque::new();
    deque.push_back(5, &mut store);
    let mid = deque.push_back(6, &mut store);
    deque.push_back(7, &mut store);
    assert_eq!(deque.try_remove(mid, &mut store), Some(6));
    assert_eq!(collect(&deque, &store), vec![5, 7]);
    assert_eq!(deque.try_remove(mid, &mut store), None);
    assert_eq!(deque.len(), 2);
}

#[test]
fn push_to_back_after_anchor() {
    let mut store: SlabStore<u64> = SlabStore::new();
    let mut deque: Deque<u64, SlabStore<u64>> = Deque::new();
    let a = deque.push_back(1, &mut store);
    let c = deque.push_back(3, &mut store);
    deque.push_to_back(2, a, &mut store);
    assert_eq!(collect(&deque, &store), vec![1, 2, 3]);
    assert_eq!(deque.get_last(), c);
    let d = deque.push_to_back(4, c, &mut store);
    assert_eq!(collect(&deque, &store), vec![1, 2, 3, 4]);
    assert_eq!(deque.get_last(), d);
    assert_eq!(deque.len(), 4);
}

#[test]
fn push_to_front_before_anchor() {
    let mut store: SlabStore<u64> = SlabStore::new();
    let mut deque: Deque<u64, SlabStore<u64>> = Deque::new();
    let a = deque.push_back(1, &mut store);
    let c = deque.push_back(3, &mut store);
    deque.push_to_front(2, c, &mut store);
    assert_eq!(collect(&deque, &store), vec![1, 2, 3]);
    assert_eq!(deque.get_first(), a);
    let z = deque.push_to_front(0, a, &mut store);
    assert_eq!(collect(&deque, &store), vec![0, 1, 2, 3]);
    assert_eq!(deque.get_first(), z);
    assert_eq!(deque.len(), 4);
}

#[test]
fn unchecked_pops_return_boundary_elements() {
    let mut store: SlabStore<u64> = SlabStore::new();
    let mut deque: Deque<u64, SlabStore<u64>> = Deque::new();
    deque.push_back(1, &mut store);
    deque.push_back(2, &mut store);
    deque.push_back(3, &mut store);
    assert_eq!(deque.pop_front_unchecked(&mut store), 1);
    assert_eq!(deque.pop_back_unchecked(&mut store), 3);
    assert_eq!(collect(&deque, &store), vec![2]);
    assert_eq!(deque.pop_back_unchecked(&mut store), 2);
    assert_eq!(deque.len(), 0);
    assert_eq!(deque.get_first(), 0);
    assert_eq!(deque.get_last(), 0);
}

#[test]
fn clear_matches_popping_everything() {
    let mut store_a: SlabStore<u64> = SlabStore::new();
    let mut cleared: Deque<u64, SlabStore<u64>> = Deque::new();
    let mut store_b: SlabStore<u64> = SlabStore::new();
    let mut popped: Deque<u64, SlabStore<u64>> = Deque::new();
    for v in 0..5u64 {
        cleared.push_back(v, &mut store_a);
        popped.push_back(v, &mut store_b);
    }
    cleared.clear(&mut store_a);
    for _ in 0..5 {
        popped.pop_front(&mut store_b);
    }
    assert_eq!(cleared.len(), popped.len());
    assert_eq!(cleared.get_first(), popped.get_first());
    assert_eq!(cleared.get_last(), popped.get_last());
    assert_eq!(collect(&cleared, &store_a), Vec::<u64>::new());
    assert_eq!(collect(&popped, &store_b), Vec::<u64>::new());
    // Both stores are empty again: the next insert hands out the same handle.
    assert_eq!(cleared.push_back(9, &mut store_a), popped.push_back(9, &mut store_b));
}

#[test]
fn iteration_is_repeatable() {
    let mut store: SlabStore<u64> = SlabStore::new();
    let mut deque: Deque<u64, SlabStore<u64>> = Deque::new();
    for v in [4u64, 8, 15, 16, 23, 42] {
        deque.push_back(v, &mut store);
    }
    let once = collect(&deque, &store);
    let twice = collect(&deque, &store);
    assert_eq!(once, twice);
    assert_eq!(once, vec![4, 8, 15, 16, 23, 42]);
}

#[test]
fn slots_are_reused_after_removal() {
    let mut store: SlabStore<u64> = SlabStore::new();
    let mut deque: Deque<u64, SlabStore<u64>> = Deque::new();
    let a = deque.push_back(1, &mut store);
    deque.push_back(2, &mut store);
    assert_eq!(deque.pop_front(&mut store), Some(1));
    let c = deque.push_back(3, &mut store);
    assert_eq!(a, c);
    assert_eq!(collect(&deque, &store), vec![2, 3]);
}

#[test]
fn handles_are_never_zero() {
    let mut store: SlabStore<u64> = SlabStore::new();
    let mut deque: Deque<u64, SlabStore<u64>> = Deque::new();
    for v in 0..10u64 {
        let key = deque.push_back(v, &mut store);
        assert_ne!(key, 0);
    }
}

#[test]
fn clone_copies_the_scalars() {
    let mut store: SlabStore<u64> = SlabStore::new();
    let mut deque: Deque<u64, SlabStore<u64>> = Deque::new();
    deque.push_back(1, &mut store);
    deque.push_back(2, &mut store);
    let copy = deque.clone();
    assert_eq!(copy.len(), deque.len());
    assert_eq!(copy.get_first(), deque.get_first());
    assert_eq!(copy.get_last(), deque.get_last());
    assert_eq!(collect(&copy, &store), vec![1, 2]);
}

#[test]
fn default_is_empty() {
    let deque: Deque<u64, SlabStore<u64>> = Deque::default();
    assert_eq!(deque.len(), 0);
    assert_eq!(deque.get_first(), 0);
    assert_eq!(deque.get_last(), 0);
}

#[test]
fn store_trait_roundtrip() {
    let mut store: SlabStore<u64> = SlabStore::new();
    let key = store.insert(Node::new(11, 0, 0));
    assert_ne!(key, 0);
    assert!(store.contains(key));
    assert!(!store.contains(key + 1));
    assert_eq!(*store.get_elem(key), 11);
    store.set_pre(key, 4);
    store.set_next(key, 6);
    assert_eq!(store.get_pre(key), 4);
    assert_eq!(store.get_next(key), 6);
    let node = store.remove(key);
    assert_eq!(node.elem, 11);
    assert_eq!(node.pre, 4);
    assert_eq!(node.next, 6);
    assert!(!store.contains(key));
}

#[test]
fn string_elements_move_through() {
    let mut store: SlabStore<String> = SlabStore::new();
    let mut deque: Deque<String, SlabStore<String>> = Deque::new();
    deque.push_back(String::from("alpha"), &mut store);
    deque.push_back(String::from("beta"), &mut store);
    deque.push_front(String::from("omega"), &mut store);
    let mut it = deque.iter(&store);
    assert_eq!(it.next().map(String::as_str), Some("omega"));
    assert_eq!(it.next().map(String::as_str), Some("alpha"));
    assert_eq!(it.next().map(String::as_str), Some("beta"));
    assert_eq!(it.next(), None);
    assert_eq!(deque.pop_back(&mut store), Some(String::from("beta")));
}
