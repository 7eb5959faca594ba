use heavy_hitters::counter::Counter;

#[test]
fn test_counter() {
    let mut counter = Counter::new();
    for c in "aaabbc".chars() {
        counter.add(c.to_string());
    }

    assert_eq!(counter.get(&'a'.to_string()), Some(3));
    assert_eq!(counter.get(&'b'.to_string()), Some(2));
    assert_eq!(counter.get(&'c'.to_string()), Some(1));
    assert_eq!(counter.get(&'d'.to_string()), None);

    counter.decrease('a'.to_string());
    assert_eq!(counter.get(&'a'.to_string()), Some(2));

    counter.remove(&'a'.to_string());
    assert_eq!(counter.get(&'a'.to_string()), None);
}

#[test]
fn counter_len_counts_distinct_keys() {
    let mut counter = Counter::new();
    assert_eq!(counter.len(), 0);
    for c in "aaabbc".chars() {
        counter.add(c.to_string());
    }
    assert_eq!(counter.len(), 3);
    counter.remove(&"a".to_string());
    assert_eq!(counter.len(), 2);
}

#[test]
fn counter_add_returns_new_count() {
    let mut counter = Counter::new();
    assert_eq!(counter.add("x".to_string()), 1);
    assert_eq!(counter.add("x".to_string()), 2);
    assert_eq!(counter.add("y".to_string()), 1);
    assert_eq!(counter.add("x".to_string()), 3);
}

#[test]
fn counter_decrease_returns_remaining_count() {
    let mut counter = Counter::new();
    counter.add("a".to_string());
    counter.add("a".to_string());
    counter.add("a".to_string());
    assert_eq!(counter.decrease("a".to_string()), Some(2));
    assert_eq!(counter.decrease("a".to_string()), Some(1));
    assert_eq!(counter.decrease("a".to_string()), None);
    assert_eq!(counter.get(&"a".to_string()), None);
    assert_eq!(counter.decrease("missing".to_string()), None);
}

#[test]
fn counter_decrease_then_add_round_trip() {
    let mut counter = Counter::new();
    counter.add("k".to_string());
    counter.add("k".to_string());
    let before = counter.get(&"k".to_string());
    counter.decrease("k".to_string());
    counter.add("k".to_string());
    assert_eq!(counter.get(&"k".to_string()), before);

    counter.add("solo".to_string());
    counter.decrease("solo".to_string());
    assert_eq!(counter.get(&"solo".to_string()), None);
    counter.add("solo".to_string());
    assert_eq!(counter.get(&"solo".to_string()), Some(1));
}

#[test]
fn counter_keys_ascend() {
    let mut counter = Counter::new();
    for c in "delta".chars() {
        counter.add(c.to_string());
    }
    let keys = counter.keys();
    assert_eq!(
        keys,
        vec![
            "a".to_string(),
            "d".to_string(),
            "e".to_string(),
            "l".to_string(),
            "t".to_string()
        ]
    );
}

#[test]
fn counter_most_common_breaks_ties_by_key() {
    let mut counter = Counter::new();
    for c in "bbbccaa".chars() {
        counter.add(c.to_string());
    }
    let ranked = counter.most_common_ordered();
    assert_eq!(
        ranked,
        vec![
            ("b".to_string(), 3),
            ("a".to_string(), 2),
            ("c".to_string(), 2)
        ]
    );
}

#[test]
fn counter_k_most_common_is_a_prefix() {
    let mut counter = Counter::new();
    for c in "bbbccaa".chars() {
        counter.add(c.to_string());
    }
    let full = counter.most_common_ordered();
    for k in 0..5 {
        let got = counter.k_most_common_ordered(k);
        let want: Vec<(String, i64)> = full.iter().take(k).cloned().collect();
        assert_eq!(got, want);
    }
    assert_eq!(counter.k_most_common_ordered(0).len(), 0);
    assert_eq!(counter.k_most_common_ordered(100).len(), 3);
}
