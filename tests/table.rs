use robin_hood::rh_hash_table::{RobinHoodHashTable, TableError};

#[test]
fn hello_test() {
    assert_eq!(2, 2);
}

#[test]
fn insert_test_for_all_cases() {
    let mut rht = RobinHoodHashTable::new(9, 10, 3).unwrap();
    rht.insert(String::from("pineapple"), 1).unwrap();
    assert_eq!(rht.contains(String::from("pineapple")), true);

    rht.insert(String::from("carrot"), 2).unwrap();
    rht.insert(String::from("cucumber"), 3).unwrap();

    assert_eq!(rht.contains(String::from("carrot")), true);
    assert_eq!(rht.contains(String::from("cucumber")), true);
}

#[test]
fn contains_test_for_search_key_that_exists() {
    let mut rht = RobinHoodHashTable::new(9, 10, 3).unwrap();
    rht.insert(String::from("pine tree"), 1).unwrap();
    assert_eq!(rht.contains(String::from("pine tree")), true);
}

#[test]
fn contains_test_for_search_key_that_doesnt_exist() {
    let rht = RobinHoodHashTable::<i64>::new(9, 10, 3).unwrap();
    assert_eq!(rht.contains(String::from("pine tree")), false);
}

fn key(i: usize) -> String {
    format!("key-{}", i)
}

/// The first keys, in order, whose home slot in `t` is `home`.
fn keys_with_home(t: &RobinHoodHashTable<i32>, home: usize, count: usize) -> Vec<String> {
    let mut found = Vec::new();
    let mut i = 0;
    while found.len() < count {
        let k = key(i);
        if t.home_slot(k.clone()) == home {
            found.push(k);
        }
        i += 1;
    }
    found
}

#[test]
fn round_trip_get_returns_inserted_value() {
    let mut t = RobinHoodHashTable::new(3, 4, 8).unwrap();
    for i in 0..50 {
        t.insert(key(i), i as i32 * 7).unwrap();
        assert!(t.contains(key(i)));
        assert_eq!(t.get(key(i)), Some(&(i as i32 * 7)));
    }
}

#[test]
fn insert_same_key_twice_keeps_latest_value() {
    let mut t = RobinHoodHashTable::new(3, 4, 8).unwrap();
    assert_eq!(t.insert(String::from("apple"), 1), Ok(false));
    assert_eq!(t.insert(String::from("apple"), 2), Ok(true));
    assert_eq!(t.len(), 1);
    assert_eq!(t.get(String::from("apple")), Some(&2));
}

#[test]
fn remove_absent_key_changes_nothing() {
    let mut t = RobinHoodHashTable::new(3, 4, 8).unwrap();
    t.insert(String::from("apple"), 1).unwrap();
    t.insert(String::from("pear"), 2).unwrap();
    assert_eq!(t.remove(String::from("plum")), false);
    assert_eq!(t.len(), 2);
    assert_eq!(t.capacity(), 8);
    assert_eq!(t.get(String::from("apple")), Some(&1));
    assert_eq!(t.get(String::from("pear")), Some(&2));
}

#[test]
fn remove_on_empty_table_returns_false() {
    let mut t = RobinHoodHashTable::<i32>::new(1, 2, 1).unwrap();
    assert_eq!(t.remove(String::from("x")), false);
    assert_eq!(t.len(), 0);
}

#[test]
fn remove_then_reinsert() {
    let mut t = RobinHoodHashTable::new(3, 4, 8).unwrap();
    t.insert(String::from("apple"), 1).unwrap();
    assert_eq!(t.remove(String::from("apple")), true);
    assert_eq!(t.contains(String::from("apple")), false);
    assert_eq!(t.remove(String::from("apple")), false);
    assert_eq!(t.len(), 0);
    t.insert(String::from("apple"), 5).unwrap();
    assert_eq!(t.get(String::from("apple")), Some(&5));
}

#[test]
fn mixed_inserts_and_removes_keep_membership() {
    let mut t = RobinHoodHashTable::with_seed(4, 5, 4, 17).unwrap();
    for i in 0..200 {
        t.insert(key(i), i as i32).unwrap();
    }
    for i in (0..200).filter(|i| i % 3 == 0) {
        assert!(t.remove(key(i)));
    }
    for i in 0..200 {
        assert_eq!(t.contains(key(i)), i % 3 != 0);
        if i % 3 != 0 {
            assert_eq!(t.get(key(i)), Some(&(i as i32)));
        } else {
            assert_eq!(t.get(key(i)), None);
        }
    }
    assert_eq!(t.len(), 200 - 67);
}

#[test]
fn load_stays_below_bound_after_every_insert() {
    let mut t = RobinHoodHashTable::new(2, 3, 1).unwrap();
    for i in 0..100 {
        t.insert(key(i), 0).unwrap();
        assert!(t.len() * 3 < 2 * t.capacity());
    }
}

#[test]
fn backward_shift_keeps_displaced_keys_reachable() {
    let mut t = RobinHoodHashTable::with_seed(99, 100, 4, 5).unwrap();
    let at_zero = keys_with_home(&t, 0, 2);
    let at_one = keys_with_home(&t, 1, 1);
    let (a, b, c) = (at_zero[0].clone(), at_zero[1].clone(), at_one[0].clone());
    t.insert(a.clone(), 1).unwrap();
    t.insert(b.clone(), 2).unwrap();
    t.insert(c.clone(), 3).unwrap();
    assert_eq!(t.capacity(), 4);
    assert!(t.remove(a.clone()));
    assert!(!t.contains(a));
    assert!(t.contains(b.clone()));
    assert!(t.contains(c.clone()));
    assert_eq!(t.get(b), Some(&2));
    assert_eq!(t.get(c), Some(&3));
    assert_eq!(t.len(), 2);
}

#[test]
fn growth_preserves_membership() {
    let mut t = RobinHoodHashTable::new(3, 4, 2).unwrap();
    for i in 0..40 {
        t.insert(key(i), i as i32).unwrap();
    }
    assert!(t.capacity() > 2);
    for i in 0..40 {
        assert_eq!(t.get(key(i)), Some(&(i as i32)));
    }
    assert_eq!(t.len(), 40);
}

#[test]
fn deterministic_small_case() {
    let mut t = RobinHoodHashTable::new(9, 10, 3).unwrap();
    t.insert(String::from("pineapple"), 1).unwrap();
    assert!(t.contains(String::from("pineapple")));
    assert!(!t.contains(String::from("carrot")));
    t.insert(String::from("carrot"), 2).unwrap();
    assert_eq!(t.capacity(), 3);
    t.insert(String::from("cucumber"), 3).unwrap();
    assert_eq!(t.capacity(), 6);
    assert_eq!(t.get(String::from("pineapple")), Some(&1));
    assert_eq!(t.get(String::from("carrot")), Some(&2));
    assert_eq!(t.get(String::from("cucumber")), Some(&3));
}

#[test]
fn growth_doubles_until_below_load() {
    let mut t = RobinHoodHashTable::new(1, 10, 1).unwrap();
    t.insert(String::from("a"), 1).unwrap();
    assert_eq!(t.capacity(), 16);
}

#[test]
fn invalid_configurations_are_rejected() {
    assert_eq!(RobinHoodHashTable::<i32>::new(0, 10, 3).err(), Some(TableError::InvalidConfiguration));
    assert_eq!(RobinHoodHashTable::<i32>::new(10, 10, 3).err(), Some(TableError::InvalidConfiguration));
    assert_eq!(RobinHoodHashTable::<i32>::new(11, 10, 3).err(), Some(TableError::InvalidConfiguration));
    assert_eq!(RobinHoodHashTable::<i32>::new(9, 10, 0).err(), Some(TableError::InvalidConfiguration));
    assert!(RobinHoodHashTable::<i32>::new(1, 2, 1).is_ok());
}

#[test]
fn build_resized_table_doubles_and_keeps_entries() {
    let mut t = RobinHoodHashTable::new(3, 4, 8).unwrap();
    for i in 0..5 {
        t.insert(key(i), i as i32).unwrap();
    }
    assert_eq!(t.build_resized_table(), Ok(()));
    assert_eq!(t.capacity(), 16);
    assert_eq!(t.len(), 5);
    for i in 0..5 {
        assert_eq!(t.get(key(i)), Some(&(i as i32)));
    }
}

#[test]
fn same_seed_gives_same_home_slots() {
    let t1 = RobinHoodHashTable::<i32>::with_seed(1, 2, 64, 99).unwrap();
    let t2 = RobinHoodHashTable::<i32>::with_seed(1, 2, 64, 99).unwrap();
    let mut distinct = std::collections::HashSet::new();
    for i in 0..100 {
        let h = t1.home_slot(key(i));
        assert!(h < 64);
        assert_eq!(h, t2.home_slot(key(i)));
        distinct.insert(h);
    }
    assert!(distinct.len() > 1);
}

#[test]
fn random_seeds_still_find_every_key() {
    let mut t = RobinHoodHashTable::new(1, 2, 4).unwrap();
    for i in 0..30 {
        t.insert(key(i), i).unwrap();
    }
    for i in 0..30 {
        assert_eq!(t.get(key(i)), Some(&i));
    }
    assert_eq!(t.get(String::from("missing")), None);
}
