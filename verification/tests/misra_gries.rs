use heavy_hitters::misra_gries::MisraGries;

#[test]
fn test_mg() {
    let mut mg = MisraGries::new(10);

    // if our window is 10 items, we should ensure that the values appear
    // no more than 10 characters apart.
    let items = "acbacbdefagh".chars().collect::<Vec<char>>();
    for item in items {
        mg.track(&item.to_string());
    }
    assert_eq!(mg.len(), 8);
    assert_eq!(mg.get(&"a".to_owned()), Some(3));
    assert_eq!(mg.get(&"b".to_owned()), Some(2));
    assert_eq!(mg.get(&"c".to_owned()), Some(2));
}

#[test]
fn mg_toll_pass_at_capacity() {
    let mut mg = MisraGries::new(4);
    for c in "aaabbcde".chars() {
        mg.track(&c.to_string());
    }
    assert_eq!(mg.len(), 2);
    assert_eq!(mg.get(&"a".to_owned()), Some(2));
    assert_eq!(mg.get(&"b".to_owned()), Some(1));
    assert_eq!(mg.get(&"c".to_owned()), None);
    assert_eq!(mg.get(&"d".to_owned()), None);
    assert_eq!(mg.get(&"e".to_owned()), None);
}

#[test]
fn mg_track_reports_admission() {
    let mut mg = MisraGries::new(2);
    assert!(mg.track("a"));
    assert!(mg.track("b"));
    assert!(mg.track("a"));
    // full, and "c" is new: every tracked item pays a toll instead
    assert!(!mg.track("c"));
    assert_eq!(mg.get(&"a".to_owned()), Some(1));
    assert_eq!(mg.get(&"b".to_owned()), None);
    assert_eq!(mg.len(), 1);
    // a slot is free again
    assert!(mg.track("c"));
}

#[test]
fn mg_limit_zero_tracks_nothing() {
    let mut mg = MisraGries::new(0);
    assert!(!mg.track("a"));
    assert!(!mg.track("a"));
    assert_eq!(mg.len(), 0);
    assert!(mg.top(3).is_empty());
}

fn ranked_fixture() -> MisraGries {
    let mut mg = MisraGries::new(10);
    for _ in 0..5 {
        mg.track("a");
    }
    for _ in 0..3 {
        mg.track("c");
    }
    for _ in 0..3 {
        mg.track("b");
    }
    mg
}

#[test]
fn mg_top_orders_by_count_then_key() {
    let mg = ranked_fixture();
    assert_eq!(
        mg.top(3),
        vec![
            ("a".to_string(), 5),
            ("b".to_string(), 3),
            ("c".to_string(), 3)
        ]
    );
    assert_eq!(
        mg.top(2),
        vec![("a".to_string(), 5), ("b".to_string(), 3)]
    );
    assert_eq!(mg.top(100).len(), 3);
}

fn purge_fixture() -> MisraGries {
    let mut mg = MisraGries::new(10);
    for _ in 0..5 {
        mg.track("a");
    }
    for _ in 0..3 {
        mg.track("b");
    }
    for _ in 0..2 {
        mg.track("c");
    }
    mg.track("d");
    mg.track("e");
    mg
}

#[test]
fn mg_purge_removes_one_more_than_asked() {
    let mut mg = purge_fixture();
    assert_eq!(mg.len(), 5);
    mg.purge(1);
    // the walk from the low end removes two entries for count 1
    assert_eq!(mg.len(), 3);
    assert_eq!(mg.get(&"d".to_owned()), None);
    assert_eq!(mg.get(&"e".to_owned()), None);
    assert_eq!(mg.get(&"c".to_owned()), Some(2));
    assert_eq!(mg.get(&"b".to_owned()), Some(3));
    assert_eq!(mg.get(&"a".to_owned()), Some(5));
}

#[test]
fn mg_purge_zero_removes_one() {
    let mut mg = purge_fixture();
    mg.purge(0);
    assert_eq!(mg.len(), 4);
    assert_eq!(mg.get(&"e".to_owned()), None);
    assert_eq!(mg.get(&"d".to_owned()), Some(1));
}

#[test]
fn mg_purge_large_count_empties() {
    let mut mg = purge_fixture();
    mg.purge(5);
    assert_eq!(mg.len(), 0);
    let mut mg2 = purge_fixture();
    mg2.purge(100);
    assert_eq!(mg2.len(), 0);
}

#[test]
fn mg_capacity_never_exceeded() {
    let mut mg = MisraGries::new(3);
    for c in "abcdefghijabcabcabc".chars() {
        mg.track(&c.to_string());
        assert!(mg.len() <= 3);
    }
}
