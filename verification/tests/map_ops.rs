use chashmap::{pin, ConcurrentHashMap};

#[test]
fn empty_map_finds_nothing() {
    let m = ConcurrentHashMap::new();
    let g = pin();
    assert_eq!(m.get(1, &g), None);
    assert_eq!(m.len(), 0);
    assert_eq!(m.capacity(), 0);
}

#[test]
fn put_then_get_returns_latest_value() {
    let mut m = ConcurrentHashMap::new();
    let g = pin();
    assert_eq!(m.put(7, 70), None);
    assert_eq!(m.get(7, &g), Some(70));
    assert_eq!(m.put(7, 71), Some(70));
    assert_eq!(m.get(7, &g), Some(71));
    assert_eq!(m.len(), 1);
}

#[test]
fn put_allocates_bins_lazily() {
    let mut m = ConcurrentHashMap::new();
    assert_eq!(m.capacity(), 0);
    m.put(1, 1);
    assert_eq!(m.capacity(), 16);
}

#[test]
fn put_if_absent_one_winner() {
    let mut m = ConcurrentHashMap::new();
    let g = pin();
    let first = m.put_if_absent(42, 1);
    let second = m.put_if_absent(42, 2);
    assert_eq!(first, None);
    assert_eq!(second, Some(1));
    assert_eq!(m.get(42, &g), Some(1));
    assert_eq!(m.len(), 1);
}

#[test]
fn remove_makes_key_invisible() {
    let mut m = ConcurrentHashMap::new();
    let g = pin();
    m.put(5, 50);
    assert_eq!(m.remove(5), Some(50));
    assert_eq!(m.get(5, &g), None);
    assert_eq!(m.remove(5), None);
    assert_eq!(m.len(), 0);
}

#[test]
fn remove_if_checks_expected_value() {
    let mut m = ConcurrentHashMap::new();
    let g = pin();
    m.put(9, 90);
    assert!(!m.remove_if(9, 91));
    assert_eq!(m.get(9, &g), Some(90));
    assert!(m.remove_if(9, 90));
    assert_eq!(m.get(9, &g), None);
    assert!(!m.remove_if(9, 90));
}

#[test]
fn single_key_history_reads_latest_write() {
    let mut m = ConcurrentHashMap::new();
    let g = pin();
    m.put(3, 1);
    m.put(4, 1000);
    m.put(3, 2);
    m.remove(3);
    m.put(3, 3);
    assert_eq!(m.get(3, &g), Some(3));
    assert_eq!(m.get(4, &g), Some(1000));
}

#[test]
fn with_capacity_rounds_up_to_power_of_two() {
    let mut m = ConcurrentHashMap::with_capacity(17);
    m.put(0, 0);
    assert_eq!(m.capacity(), 32);

    let mut m2 = ConcurrentHashMap::with_capacity(100);
    m2.put(0, 0);
    assert_eq!(m2.capacity(), 128);

    let mut m3 = ConcurrentHashMap::with_capacity(3);
    m3.put(0, 0);
    assert_eq!(m3.capacity(), 16);
}
