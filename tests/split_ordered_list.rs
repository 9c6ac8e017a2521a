use split_ordered::split_ordered_list::SplitOrderedList;

#[test]
fn sequential_scenario() {
    let mut list = SplitOrderedList::<usize>::new();

    assert_eq!(list.insert(&37, 37), Ok(()));
    assert_eq!(list.lookup(&42), None);
    assert_eq!(list.lookup(&37), Some(&37));

    assert_eq!(list.insert(&42, 42), Ok(()));
    assert_eq!(list.lookup(&42), Some(&42));
    assert_eq!(list.lookup(&37), Some(&37));

    assert_eq!(list.delete(&37), Ok(37));
    assert_eq!(list.lookup(&42), Some(&42));
    assert_eq!(list.lookup(&37), None);

    assert_eq!(list.delete(&37), Err(()));
    assert_eq!(list.lookup(&42), Some(&42));
    assert_eq!(list.lookup(&37), None);
}

#[test]
fn fresh_map_holds_nothing() {
    let list = SplitOrderedList::<u32>::new();
    assert_eq!(list.len(), 0);
    for k in [0usize, 1, 2, 3, 1000, (1usize << 63) - 1] {
        assert_eq!(list.lookup(&k), None);
    }
}

#[test]
fn lookup_after_insert_until_delete() {
    let mut list = SplitOrderedList::<&str>::new();
    assert_eq!(list.insert(&5, "five"), Ok(()));
    assert_eq!(list.lookup(&5), Some(&"five"));
    assert_eq!(list.insert(&6, "six"), Ok(()));
    assert_eq!(list.delete(&6), Ok("six"));
    assert_eq!(list.lookup(&5), Some(&"five"));
    assert_eq!(list.delete(&5), Ok("five"));
    assert_eq!(list.lookup(&5), None);
}

#[test]
fn second_insert_returns_value() {
    let mut list = SplitOrderedList::<String>::new();
    assert_eq!(list.insert(&9, "first".to_string()), Ok(()));
    assert_eq!(list.insert(&9, "second".to_string()), Err("second".to_string()));
    assert_eq!(list.lookup(&9), Some(&"first".to_string()));
    assert_eq!(list.len(), 1);
}

#[test]
fn delete_missing_key_fails() {
    let mut list = SplitOrderedList::<u8>::new();
    assert_eq!(list.delete(&3), Err(()));
    assert_eq!(list.insert(&3, 30), Ok(()));
    assert_eq!(list.delete(&3), Ok(30));
    assert_eq!(list.delete(&3), Err(()));
    assert_eq!(list.len(), 0);
}

#[test]
fn insert_delete_round_trip() {
    let mut list = SplitOrderedList::<u64>::new();
    assert_eq!(list.insert(&11, 110), Ok(()));
    assert_eq!(list.delete(&11), Ok(110));
    assert_eq!(list.lookup(&11), None);
    assert_eq!(list.delete(&11), Err(()));
    assert_eq!(list.insert(&11, 111), Ok(()));
    assert_eq!(list.lookup(&11), Some(&111));
}

#[test]
fn largest_and_smallest_keys() {
    let mut list = SplitOrderedList::<usize>::new();
    let top = (1usize << 63) - 1;
    assert_eq!(list.insert(&top, 1), Ok(()));
    assert_eq!(list.insert(&0, 2), Ok(()));
    assert_eq!(list.lookup(&top), Some(&1));
    assert_eq!(list.lookup(&0), Some(&2));
    assert_eq!(list.lookup(&(top - 1)), None);
    assert_eq!(list.delete(&top), Ok(1));
    assert_eq!(list.lookup(&0), Some(&2));
}

#[test]
fn growth_keeps_every_key() {
    let mut list = SplitOrderedList::<usize>::new();
    let n: usize = 5000;
    for k in 0..n {
        assert_eq!(list.insert(&(k * 7919), k), Ok(()));
    }
    assert_eq!(list.len(), n);
    for k in 0..n {
        assert_eq!(list.lookup(&(k * 7919)), Some(&k));
        assert_eq!(list.lookup(&(k * 7919 + 1)), None);
    }
    for k in (0..n).step_by(2) {
        assert_eq!(list.delete(&(k * 7919)), Ok(k));
    }
    assert_eq!(list.len(), n / 2);
    for k in 0..n {
        let expected = if k % 2 == 0 { None } else { Some(&k) };
        assert_eq!(list.lookup(&(k * 7919)), expected);
    }
}

#[test]
fn keys_sharing_a_bucket() {
    let mut list = SplitOrderedList::<usize>::new();
    for k in [4usize, 8, 12, 16, 20, 24, 28, 32] {
        assert_eq!(list.insert(&k, k + 1), Ok(()));
    }
    for k in [4usize, 8, 12, 16, 20, 24, 28, 32] {
        assert_eq!(list.lookup(&k), Some(&(k + 1)));
    }
    assert_eq!(list.lookup(&36), None);
    assert_eq!(list.len(), 8);
}

#[test]
fn default_map_is_empty() {
    let mut list: SplitOrderedList<i32> = Default::default();
    assert_eq!(list.len(), 0);
    assert_eq!(list.lookup(&1), None);
    assert_eq!(list.insert(&1, -1), Ok(()));
    assert_eq!(list.lookup(&1), Some(&-1));
}
