use early_alloc::map::HashMap;

#[test]
fn empty_map() {
    let m: HashMap<u32> = HashMap::new(7);
    assert_eq!(m.len(), 0);
    assert_eq!(m.get(&1), None);
}

#[test]
fn insert_then_get() {
    let mut m: HashMap<&str> = HashMap::new(1);
    m.insert(10, "ten");
    m.insert(20, "twenty");
    assert_eq!(m.get(&10), Some(&"ten"));
    assert_eq!(m.get(&20), Some(&"twenty"));
    assert_eq!(m.get(&30), None);
    assert_eq!(m.len(), 2);
}

#[test]
fn insert_same_key_twice_updates() {
    let mut m: HashMap<u64> = HashMap::new(2);
    m.insert(5, 50);
    m.insert(5, 55);
    assert_eq!(m.len(), 1);
    assert_eq!(m.get(&5), Some(&55));
}

#[test]
fn twelve_keys_survive_growth() {
    let mut m: HashMap<u64> = HashMap::new(3);
    for k in 0..12u64 {
        m.insert(k * 7 + 1, k);
    }
    assert_eq!(m.len(), 12);
    for k in 0..12u64 {
        assert_eq!(m.get(&(k * 7 + 1)), Some(&k));
    }
}

#[test]
fn growth_keeps_latest_values() {
    let mut m: HashMap<u64> = HashMap::new(0xabcdef);
    for round in 0..3u64 {
        for k in 0..500u64 {
            m.insert(k * 31, k + round * 1000);
        }
    }
    assert_eq!(m.len(), 500);
    for k in 0..500u64 {
        assert_eq!(m.get(&(k * 31)), Some(&(k + 2000)));
    }
    assert_eq!(m.get(&1), None);
}

#[test]
fn iteration_lists_each_entry_once() {
    let mut m: HashMap<u64> = HashMap::new(9);
    for k in 0..40u64 {
        m.insert(k % 25, k);
    }
    let mut it = m.iter();
    let mut seen: Vec<(u64, u64)> = Vec::new();
    while let Some((k, v)) = it.next() {
        seen.push((*k, *v));
    }
    assert_eq!(seen.len(), m.len());
    assert_eq!(seen.len(), 25);
    let mut keys: Vec<u64> = seen.iter().map(|e| e.0).collect();
    keys.sort();
    keys.dedup();
    assert_eq!(keys, (0..25u64).collect::<Vec<u64>>());
    for (k, v) in seen {
        assert_eq!(m.get(&k), Some(&v));
        assert_eq!(v, if k < 15 { k + 25 } else { k });
    }
    assert!(it.next().is_none());
}

#[test]
fn iteration_is_restartable() {
    let mut m: HashMap<u8> = HashMap::new(4);
    m.insert(1, 1);
    m.insert(2, 2);
    let mut a = m.iter();
    let mut n = 0;
    while a.next().is_some() {
        n += 1;
    }
    let mut b = m.iter();
    let mut n2 = 0;
    while b.next().is_some() {
        n2 += 1;
    }
    assert_eq!(n, 2);
    assert_eq!(n2, 2);
}

#[test]
fn keyed_hash_scatters_keys() {
    let mut m: HashMap<u64> = HashMap::new(0);
    for k in 0..12u64 {
        m.insert(k, k);
    }
    let mut it = m.iter();
    let mut order: Vec<u64> = Vec::new();
    while let Some((k, _)) = it.next() {
        order.push(*k);
    }
    assert_eq!(order.len(), 12);
    assert_ne!(order, (0..12u64).collect::<Vec<u64>>());
}
