use widget_core::fastset::FastSet;

#[test]
fn very_good_test() {
    let mut set = FastSet::default();
    for i in 0..100 {
        set.add(i);
        assert!(set.bloom_contains(&i));
    }
    set.clear();
    for i in 0..100 {
        assert!(!set.bloom_contains(&i));
    }
}

#[test]
fn union() {
    let mut set1 = FastSet::default();
    set1.add(0);
    set1.add(1);
    assert!(!set1.bloom_contains(&2));
    assert!(!set1.bloom_contains(&3));
    let mut set2 = FastSet::default();
    set2.add(2);
    set2.add(3);
    assert!(!set2.bloom_contains(&0));
    assert!(!set2.bloom_contains(&1));

    let set3 = set1.union(&set2);
    assert!(set3.bloom_contains(&0));
    assert!(set3.bloom_contains(&1));
    assert!(set3.bloom_contains(&2));
    assert!(set3.bloom_contains(&3));
}

#[test]
fn contains_is_exact() {
    let mut set = FastSet::new();
    for i in 0..40 {
        set.add(i * 3);
    }
    for i in 0..40 {
        assert!(set.contains(&(i * 3)));
    }
    for i in 0..40 {
        assert!(!set.contains(&(i * 3 + 1)));
        assert!(!set.contains(&(i * 3 + 2)));
    }
    assert_eq!(set.len(), 40);
}

#[test]
fn union_reports_all_members() {
    let mut a = FastSet::new();
    a.add(10);
    a.add(11);
    let mut b = FastSet::new();
    b.add(12);
    b.add(13);
    let u = a.union(&b);
    assert!(u.contains(&10));
    assert!(u.contains(&11));
    assert!(u.contains(&12));
    assert!(u.contains(&13));
    assert!(!u.contains(&14));
    assert_eq!(u.len(), 4);
}

#[test]
fn add_is_idempotent() {
    let mut set = FastSet::new();
    set.add(7);
    set.add(7);
    assert_eq!(set.len(), 1);
    assert!(set.contains(&7));
}
