use worldgen::queue::{Entry, MinQueue};

#[test]
fn empty_queue_gives_nothing() {
    let mut q = MinQueue::new();
    assert!(q.is_empty());
    assert!(q.pop().is_none());
    assert!(q.is_empty());
}

#[test]
fn entries_come_out_smallest_first() {
    let mut q = MinQueue::new();
    let keys: [u64; 12] = [50, 3, 99, 3, 0, 77, 12, 5, 1000, 8, 8, 41];
    for (i, k) in keys.iter().enumerate() {
        q.push(Entry { key: *k, item: i as u64 });
    }
    assert!(!q.is_empty());
    let mut out: Vec<(u64, u64)> = Vec::new();
    while let Some(e) = q.pop() {
        out.push((e.key, e.item));
    }
    let mut expected: Vec<(u64, u64)> = keys.iter().enumerate().map(|(i, k)| (*k, i as u64)).collect();
    expected.sort();
    assert_eq!(out, expected);
}

#[test]
fn equal_keys_come_out_by_item() {
    let mut q = MinQueue::new();
    for item in [9u64, 2, 7, 2, 5] {
        q.push(Entry { key: 4, item });
    }
    let mut items: Vec<u64> = Vec::new();
    while let Some(e) = q.pop() {
        assert_eq!(e.key, 4);
        items.push(e.item);
    }
    assert_eq!(items, vec![2, 2, 5, 7, 9]);
}

#[test]
fn pushes_and_pops_may_alternate() {
    let mut q = MinQueue::new();
    let mut state: u64 = 12345;
    let mut held: Vec<u64> = Vec::new();
    for round in 0..500u64 {
        state = worldgen::rng::splitmix64(state);
        if state % 3 != 0 || held.is_empty() {
            let key = state >> 40;
            q.push(Entry { key, item: round });
            held.push(key);
        } else {
            let e = q.pop().unwrap();
            let least = *held.iter().min().unwrap();
            assert_eq!(e.key, least);
            let at = held.iter().position(|k| *k == least).unwrap();
            held.swap_remove(at);
        }
    }
    assert_eq!(q.items.len(), held.len());
}
