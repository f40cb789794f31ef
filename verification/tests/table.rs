use hashtable::HashTable;

#[test]
fn new_table_has_eleven_slots_and_no_entries() {
    let table: HashTable<usize, i32> = HashTable::new();
    assert_eq!(table.capacity(), 11);
    assert_eq!(table.taken_count(), 0);
    assert_eq!(table.get(&0), None);
    assert_eq!(table.get(&7), None);
}

#[test]
fn insert_then_get() {
    let mut table: HashTable<usize, i32> = HashTable::new();
    table.insert(5, 50);
    assert_eq!(table.get(&5), Some(50));
    assert_eq!(table.taken_count(), 1);
    assert_eq!(table.capacity(), 11);
}

#[test]
fn value_stays_through_other_inserts() {
    let mut table: HashTable<usize, i32> = HashTable::new();
    table.insert(5, 50);
    table.insert(6, 60);
    table.insert(16, 160);
    table.insert(27, 270);
    table.insert(5, 50);
    table.insert(38, 380);
    assert_eq!(table.get(&5), Some(50));
    assert_eq!(table.get(&6), Some(60));
    assert_eq!(table.get(&16), Some(160));
    assert_eq!(table.get(&27), Some(270));
    assert_eq!(table.get(&38), Some(380));
    assert_eq!(table.taken_count(), 5);
}

#[test]
fn reinsert_overwrites_without_new_entry() {
    let mut table: HashTable<String, i32> = HashTable::new();
    table.insert("x".to_string(), 1);
    table.insert("x".to_string(), 2);
    assert_eq!(table.get(&"x".to_string()), Some(2));
    assert_eq!(table.taken_count(), 1);
    assert_eq!(table.capacity(), 11);
}

#[test]
fn reinsert_in_full_table_does_not_grow() {
    let mut table: HashTable<usize, usize> = HashTable::new();
    for key in 0..11 {
        table.insert(key, key);
    }
    assert_eq!(table.taken_count(), 11);
    assert_eq!(table.capacity(), 11);
    for key in 0..11 {
        table.insert(key, key + 100);
    }
    assert_eq!(table.taken_count(), 11);
    assert_eq!(table.capacity(), 11);
    for key in 0..11 {
        assert_eq!(table.get(&key), Some(key + 100));
    }
}

#[test]
fn filling_every_slot_does_not_grow() {
    let mut table: HashTable<usize, usize> = HashTable::new();
    for key in 0..11 {
        table.insert(key * 7, key);
        assert_eq!(table.capacity(), 11);
    }
    assert_eq!(table.taken_count(), 11);
    assert_eq!(table.get(&77), None);
    assert_eq!(table.get(&3), None);
}

#[test]
fn twelve_keys_grow_once() {
    let mut table: HashTable<usize, usize> = HashTable::new();
    let mut growths = 0;
    for key in 0..12 {
        let before = table.capacity();
        table.insert(key, key * 10);
        if table.capacity() != before {
            growths += 1;
            assert_eq!(table.capacity(), 2 * before + 1);
        }
    }
    assert_eq!(growths, 1);
    assert_eq!(table.capacity(), 23);
    assert_eq!(table.taken_count(), 12);
    for key in 0..12 {
        assert_eq!(table.get(&key), Some(key * 10));
    }
    assert_eq!(table.get(&12), None);
}

#[test]
fn capacity_doubles_plus_one_each_time() {
    let mut table: HashTable<usize, usize> = HashTable::new();
    let mut seen = vec![table.capacity()];
    for key in 0..100 {
        table.insert(key * 3, key);
        if table.capacity() != *seen.last().unwrap() {
            seen.push(table.capacity());
            assert_eq!(table.taken_count(), seen[seen.len() - 2] + 1);
        }
    }
    assert_eq!(seen, vec![11, 23, 47, 95, 191]);
    assert_eq!(table.taken_count(), 100);
    for key in 0..100 {
        assert_eq!(table.get(&(key * 3)), Some(key));
    }
    assert_eq!(table.get(&1), None);
    assert_eq!(table.get(&300), None);
}

#[test]
fn extend_keeps_every_entry() {
    let mut table: HashTable<usize, i32> = HashTable::new();
    table.insert(0, 1);
    table.insert(11, 2);
    table.insert(22, 3);
    table.insert(10, 4);
    table.insert(21, 5);
    table.extend();
    assert_eq!(table.capacity(), 23);
    assert_eq!(table.taken_count(), 5);
    assert_eq!(table.get(&0), Some(1));
    assert_eq!(table.get(&11), Some(2));
    assert_eq!(table.get(&22), Some(3));
    assert_eq!(table.get(&10), Some(4));
    assert_eq!(table.get(&21), Some(5));
    assert_eq!(table.get(&1), None);
    assert_eq!(table.get(&23), None);
    table.extend();
    assert_eq!(table.capacity(), 47);
    assert_eq!(table.taken_count(), 5);
    assert_eq!(table.get(&22), Some(3));
}

#[test]
fn extend_of_empty_table() {
    let mut table: HashTable<String, u8> = HashTable::new();
    table.extend();
    assert_eq!(table.capacity(), 23);
    assert_eq!(table.taken_count(), 0);
    assert_eq!(table.get(&"a".to_string()), None);
}

#[test]
fn get_of_absent_key() {
    let mut table: HashTable<usize, i32> = HashTable::new();
    assert_eq!(table.get(&3), None);
    table.insert(4, 40);
    assert_eq!(table.get(&3), None);
    assert_eq!(table.get(&15), None);
    assert_eq!(table.get(&4), Some(40));
}

#[test]
fn colliding_keys_are_kept_apart() {
    let mut table: HashTable<usize, i32> = HashTable::new();
    table.insert(0, 100);
    table.insert(11, 111);
    table.insert(22, 122);
    table.insert(1, 101);
    assert_eq!(table.get(&0), Some(100));
    assert_eq!(table.get(&11), Some(111));
    assert_eq!(table.get(&22), Some(122));
    assert_eq!(table.get(&1), Some(101));
    assert_eq!(table.get(&33), None);
    assert_eq!(table.get(&12), None);
    assert_eq!(table.taken_count(), 4);
    assert_eq!(table.capacity(), 11);
}

#[test]
fn probing_wraps_round_the_end() {
    let mut table: HashTable<usize, i32> = HashTable::new();
    table.insert(10, 1);
    table.insert(21, 2);
    table.insert(32, 3);
    table.insert(0, 4);
    assert_eq!(table.get(&10), Some(1));
    assert_eq!(table.get(&21), Some(2));
    assert_eq!(table.get(&32), Some(3));
    assert_eq!(table.get(&0), Some(4));
    assert_eq!(table.get(&43), None);
    assert_eq!(table.get(&11), None);
}

#[test]
fn get_mut_writes_through() {
    let mut table: HashTable<String, i32> = HashTable::new();
    table.insert("a".to_string(), 1);
    {
        let handle = table.get_mut(&"a".to_string());
        assert!(handle.is_some());
        let value = handle.unwrap();
        assert_eq!(*value, 1);
        *value = 99;
    }
    assert_eq!(table.get(&"a".to_string()), Some(99));
    assert_eq!(table.taken_count(), 1);
    assert_eq!(table.capacity(), 11);
}

#[test]
fn get_mut_leaves_other_entries() {
    let mut table: HashTable<usize, i32> = HashTable::new();
    table.insert(2, 20);
    table.insert(13, 130);
    table.insert(24, 240);
    if let Some(value) = table.get_mut(&13) {
        *value += 1;
    }
    assert_eq!(table.get(&2), Some(20));
    assert_eq!(table.get(&13), Some(131));
    assert_eq!(table.get(&24), Some(240));
    assert_eq!(table.taken_count(), 3);
}

#[test]
fn get_mut_of_absent_key() {
    let mut table: HashTable<usize, i32> = HashTable::new();
    assert!(table.get_mut(&1).is_none());
    table.insert(1, 10);
    assert!(table.get_mut(&12).is_none());
    assert!(table.get_mut(&2).is_none());
    assert_eq!(table.get(&1), Some(10));
    assert_eq!(table.taken_count(), 1);
}

#[test]
fn text_keys_through_growth() {
    let mut table: HashTable<String, usize> = HashTable::new();
    for i in 0..50usize {
        table.insert(format!("key-{}", i), i);
    }
    assert_eq!(table.taken_count(), 50);
    assert_eq!(table.capacity(), 95);
    for i in 0..50usize {
        assert_eq!(table.get(&format!("key-{}", i)), Some(i));
    }
    assert_eq!(table.get(&"key-50".to_string()), None);
    assert_eq!(table.get(&String::new()), None);
}

#[test]
fn large_keys_wrap_to_their_home_slot() {
    let mut table: HashTable<usize, i32> = HashTable::new();
    table.insert(usize::MAX, 1);
    table.insert(usize::MAX - 11, 2);
    assert_eq!(table.get(&usize::MAX), Some(1));
    assert_eq!(table.get(&(usize::MAX - 11)), Some(2));
    assert_eq!(table.get(&(usize::MAX - 22)), None);
}

#[test]
fn text_keys_with_one_home_slot() {
    let first = "abc".to_string();
    let second = "The quick brown fox jumps over the lazy dog".to_string();
    let mut table: HashTable<String, i32> = HashTable::new();
    table.insert(first.clone(), 1);
    table.insert(second.clone(), 2);
    assert_eq!(table.get(&first), Some(1));
    assert_eq!(table.get(&second), Some(2));
    table.insert(first.clone(), 3);
    assert_eq!(table.get(&first), Some(3));
    assert_eq!(table.get(&second), Some(2));
    assert_eq!(table.taken_count(), 2);
}

#[test]
fn get_mut_after_growth() {
    let mut table: HashTable<usize, usize> = HashTable::new();
    for key in 0..20 {
        table.insert(key, key);
    }
    assert_eq!(table.capacity(), 23);
    if let Some(value) = table.get_mut(&19) {
        *value = 1900;
    }
    assert_eq!(table.get(&19), Some(1900));
    for key in 0..19 {
        assert_eq!(table.get(&key), Some(key));
    }
    assert_eq!(table.taken_count(), 20);
}
