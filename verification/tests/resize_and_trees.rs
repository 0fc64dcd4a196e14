use chashmap::{pin, ConcurrentHashMap};
use chashmap::hash::spread;

#[test]
fn threshold_crossing_doubles_capacity() {
    // capacity 16, load factor 3/4: threshold 12. The 13th insert crosses it.
    let mut m = ConcurrentHashMap::new();
    let g = pin();
    for k in 1..=12u64 {
        m.put(k, k * 10);
    }
    assert_eq!(m.capacity(), 16);
    for k in 1..=12u64 {
        assert_eq!(m.get(k, &g), Some(k * 10));
    }
    m.put(13, 130);
    assert_eq!(m.capacity(), 32);
    for k in 1..=13u64 {
        assert_eq!(m.get(k, &g), Some(k * 10));
    }
    assert_eq!(m.len(), 13);
}

#[test]
fn final_capacity_is_minimal_for_count() {
    // 100 distinct keys: threshold(128) = 96 < 100 <= threshold(256) = 192.
    let mut m = ConcurrentHashMap::new();
    let g = pin();
    for k in 0..100u64 {
        m.put(k, k + 1);
    }
    assert_eq!(m.capacity(), 256);
    assert_eq!(m.len(), 100);
    for k in 0..100u64 {
        assert_eq!(m.get(k, &g), Some(k + 1));
    }
}

#[test]
fn four_blocks_of_thousand_keys_all_retrievable() {
    let mut m = ConcurrentHashMap::new();
    let g = pin();
    for block in 0..4u64 {
        for i in 0..1000u64 {
            let k = block * 1_000_000 + i;
            assert_eq!(m.put(k, k ^ 0xabcd), None);
        }
    }
    assert_eq!(m.len(), 4000);
    for block in 0..4u64 {
        for i in 0..1000u64 {
            let k = block * 1_000_000 + i;
            assert_eq!(m.get(k, &g), Some(k ^ 0xabcd));
        }
    }
}

/// Keys whose spread hashes agree in their low 13 bits: they share a bin at
/// every capacity up to 8192, so a chain of them overflows and treeifies.
fn colliding_keys(n: usize) -> Vec<u64> {
    let target = spread(1) & 8191;
    let mut keys = Vec::new();
    let mut k = 1u64;
    while keys.len() < n {
        if spread(k) & 8191 == target {
            keys.push(k);
        }
        k += 1;
    }
    keys
}

#[test]
fn tree_and_chain_bins_answer_alike() {
    // 20 colliding keys force growth past the treeify minimum and then a
    // tree bin; lookups must match the plain-map reference at every step.
    let keys = colliding_keys(20);
    let mut m = ConcurrentHashMap::new();
    let g = pin();
    let mut reference: Vec<(u64, u64)> = Vec::new();
    for (i, &k) in keys.iter().enumerate() {
        m.put(k, i as u64);
        reference.push((k, i as u64));
        for &(rk, rv) in &reference {
            assert_eq!(m.get(rk, &g), Some(rv));
        }
    }
    assert_eq!(m.len(), 20);
    // a colliding probe that was never inserted stays invisible
    let probe = colliding_keys(21)[20];
    assert_eq!(m.get(probe, &g), None);
}

#[test]
fn untreeify_on_removal_keeps_answers() {
    let keys = colliding_keys(20);
    let mut m = ConcurrentHashMap::new();
    let g = pin();
    for (i, &k) in keys.iter().enumerate() {
        m.put(k, i as u64);
    }
    // shrink the tree bin below the untreeify threshold
    for (i, &k) in keys.iter().enumerate() {
        if i >= 3 {
            assert_eq!(m.remove(k), Some(i as u64));
        }
    }
    assert_eq!(m.len(), 3);
    for (i, &k) in keys.iter().enumerate() {
        if i < 3 {
            assert_eq!(m.get(k, &g), Some(i as u64));
        } else {
            assert_eq!(m.get(k, &g), None);
        }
    }
}

#[test]
fn updates_never_grow_the_table() {
    let mut m = ConcurrentHashMap::new();
    for k in 1..=12u64 {
        m.put(k, 0);
    }
    for _round in 0..5 {
        for k in 1..=12u64 {
            m.put(k, k);
        }
    }
    assert_eq!(m.capacity(), 16);
    assert_eq!(m.len(), 12);
}
