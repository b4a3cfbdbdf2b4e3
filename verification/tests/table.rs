use hashmap::HashMap;
use hashmap::Key;

#[test]
fn new_table_is_empty() {
    let map: HashMap<u64, u64> = HashMap::new();
    assert_eq!(map.len(), 0);
    assert!(map.is_empty());
    assert_eq!(map.bucket_count(), 0);
    assert_eq!(map.get(&7), None);
    assert!(!map.contains_key(&7));
    let mut cursor = map.iter();
    assert!(cursor.next().is_none());
}

#[test]
fn remove_on_table_without_buckets() {
    let mut map: HashMap<u64, u64> = HashMap::new();
    assert_eq!(map.remove(&7), None);
    assert_eq!(map.len(), 0);
    assert_eq!(map.bucket_count(), 0);
}

#[test]
fn insert_then_get() {
    let mut map = HashMap::new();
    assert_eq!(map.insert(3u64, "three"), None);
    assert_eq!(map.get(&3), Some(&"three"));
    assert_eq!(map.insert(4u64, "four"), None);
    assert_eq!(map.get(&4), Some(&"four"));
    assert_eq!(map.get(&3), Some(&"three"));
    assert_eq!(map.get(&5), None);
}

#[test]
fn update_returns_previous_value() {
    let mut map = HashMap::new();
    assert_eq!(map.insert("k", 1), None);
    assert_eq!(map.len(), 1);
    assert_eq!(map.insert("k", 2), Some(1));
    assert_eq!(map.len(), 1);
    assert_eq!(map.get(&"k"), Some(&2));
    assert_eq!(map.insert("k", 3), Some(2));
    assert_eq!(map.len(), 1);
    assert_eq!(map.get(&"k"), Some(&3));
}

#[test]
fn many_updates_keep_the_count() {
    let mut map = HashMap::new();
    map.insert(1u32, 0u32);
    map.insert(2u32, 0u32);
    let mut round = 1u32;
    while round <= 50 {
        assert_eq!(map.insert(1, round), Some(round - 1));
        assert_eq!(map.len(), 2);
        round += 1;
    }
    assert_eq!(map.get(&1), Some(&50));
    assert_eq!(map.get(&2), Some(&0));
}

#[test]
fn remove_absent_key() {
    let mut map = HashMap::new();
    map.insert(1u64, 10);
    map.insert(2u64, 20);
    assert_eq!(map.remove(&3), None);
    assert_eq!(map.len(), 2);
    assert_eq!(map.get(&1), Some(&10));
    assert_eq!(map.get(&2), Some(&20));
}

#[test]
fn remove_present_key() {
    let mut map = HashMap::new();
    map.insert(1u64, 10);
    map.insert(2u64, 20);
    map.insert(3u64, 30);
    assert_eq!(map.remove(&2), Some(20));
    assert_eq!(map.len(), 2);
    assert_eq!(map.get(&2), None);
    assert!(!map.contains_key(&2));
    assert_eq!(map.get(&1), Some(&10));
    assert_eq!(map.get(&3), Some(&30));
}

#[test]
fn remove_twice() {
    let mut map = HashMap::new();
    map.insert("a", 1);
    map.insert("b", 2);
    assert_eq!(map.remove(&"a"), Some(1));
    assert_eq!(map.remove(&"a"), None);
    assert_eq!(map.len(), 1);
    assert_eq!(map.get(&"b"), Some(&2));
}

#[test]
fn remove_keeps_bucket_count() {
    let mut map = HashMap::new();
    let mut i = 0u64;
    while i < 10 {
        map.insert(i, i);
        i += 1;
    }
    let buckets = map.bucket_count();
    let mut i = 0u64;
    while i < 10 {
        assert_eq!(map.remove(&i), Some(i));
        i += 1;
    }
    assert!(map.is_empty());
    assert_eq!(map.bucket_count(), buckets);
}

#[test]
fn array_doubles_at_three_quarters() {
    let mut map = HashMap::new();
    let expected: [usize; 14] = [0, 1, 2, 4, 8, 8, 8, 16, 16, 16, 16, 16, 16, 32];
    let mut n = 0usize;
    assert_eq!(map.bucket_count(), expected[0]);
    while n < 13 {
        map.insert(n, ());
        n += 1;
        assert_eq!(map.len(), n);
        assert_eq!(map.bucket_count(), expected[n]);
    }
}

#[test]
fn load_stays_within_three_quarters() {
    let mut map = HashMap::new();
    let mut n = 0u64;
    while n < 200 {
        map.insert(n, n);
        n += 1;
        if map.bucket_count() > 2 {
            assert!(map.len() <= map.bucket_count() * 3 / 4);
        }
    }
}

#[test]
fn update_at_the_limit_grows_the_array() {
    let mut map = HashMap::new();
    map.insert(1u64, 1);
    map.insert(2u64, 2);
    map.insert(3u64, 3);
    assert_eq!(map.bucket_count(), 4);
    assert_eq!(map.insert(3u64, 33), Some(3));
    assert_eq!(map.bucket_count(), 8);
    assert_eq!(map.len(), 3);
    assert_eq!(map.get(&1), Some(&1));
    assert_eq!(map.get(&2), Some(&2));
    assert_eq!(map.get(&3), Some(&33));
}

#[test]
fn keys_survive_growth() {
    let mut map = HashMap::new();
    let mut n = 0i32;
    while n < 100 {
        assert_eq!(map.insert(n, n * 2), None);
        n += 1;
        let mut k = 0i32;
        while k < n {
            assert_eq!(map.get(&k), Some(&(k * 2)));
            k += 1;
        }
        assert_eq!(map.get(&n), None);
        assert_eq!(map.len(), n as usize);
    }
    assert_eq!(map.bucket_count(), 256);
}

#[test]
fn cursor_yields_every_entry_once() {
    let mut map = HashMap::new();
    let mut n = 0usize;
    while n < 50 {
        map.insert(n, n + 1000);
        n += 1;
    }
    let mut seen = vec![false; 50];
    let mut count = 0;
    let mut cursor = map.iter();
    while let Some((&k, &v)) = cursor.next() {
        assert_eq!(v, k + 1000);
        assert!(!seen[k]);
        seen[k] = true;
        count += 1;
    }
    assert_eq!(count, 50);
    assert_eq!(count, map.len());
    assert!(cursor.next().is_none());
    assert!(cursor.next().is_none());
}

#[test]
fn cursor_starts_anew() {
    let mut map = HashMap::new();
    map.insert("x", 1);
    let mut first = map.iter();
    assert_eq!(first.next(), Some((&"x", &1)));
    assert_eq!(first.next(), None);
    let mut second = map.iter();
    assert_eq!(second.next(), Some((&"x", &1)));
    assert_eq!(second.next(), None);
}

#[test]
fn cursor_after_removal() {
    let mut map = HashMap::new();
    let mut n = 0u64;
    while n < 20 {
        map.insert(n, n);
        n += 1;
    }
    let mut n = 0u64;
    while n < 20 {
        map.remove(&n);
        n += 2;
    }
    let mut count = 0;
    let mut sum = 0;
    let mut cursor = map.iter();
    while let Some((&k, &v)) = cursor.next() {
        assert_eq!(k % 2, 1);
        assert_eq!(k, v);
        sum += k;
        count += 1;
    }
    assert_eq!(count, 10);
    assert_eq!(sum, 100);
}

#[test]
fn removal_moves_the_last_entry_of_the_bucket() {
    // two buckets at most hold three entries: some bucket holds two or more
    let mut map = HashMap::new();
    map.insert(1u64, 'a');
    map.insert(2u64, 'b');
    assert_eq!(map.bucket_count(), 2);
    let mut cursor = map.iter();
    let first = *cursor.next().unwrap().0;
    let second = *cursor.next().unwrap().0;
    assert!(cursor.next().is_none());
    map.remove(&first);
    let mut cursor = map.iter();
    assert_eq!(cursor.next(), Some((&second, if second == 1 { &'a' } else { &'b' })));
    assert_eq!(cursor.next(), None);
}

#[test]
fn owned_string_keys() {
    let mut map = HashMap::new();
    map.insert(String::from("alpha"), 1);
    map.insert(String::from("beta"), 2);
    assert_eq!(map.get(&String::from("alpha")), Some(&1));
    assert_eq!(map.get(&String::from("beta")), Some(&2));
    assert_eq!(map.get(&String::from("gamma")), None);
    assert_eq!(map.insert(String::from("alpha"), 3), Some(1));
    assert_eq!(map.len(), 2);
}

#[test]
fn negative_keys() {
    let mut map = HashMap::new();
    map.insert(-1i64, "minus one");
    map.insert(i64::MIN, "least");
    map.insert(i64::MAX, "greatest");
    map.insert(0i64, "zero");
    assert_eq!(map.get(&-1), Some(&"minus one"));
    assert_eq!(map.get(&i64::MIN), Some(&"least"));
    assert_eq!(map.get(&i64::MAX), Some(&"greatest"));
    assert_eq!(map.get(&0), Some(&"zero"));
    assert_eq!(map.get(&1), None);
    assert_eq!(map.len(), 4);
}

#[test]
fn hash_index_is_the_hash_modulo_the_size() {
    assert_eq!(HashMap::<u64, ()>::hash_index(&5, 8), (5u64.hash_code() % 8) as usize);
    assert_eq!(HashMap::<u64, ()>::hash_index(&5, 1), 0);
    assert_eq!(HashMap::<&str, ()>::hash_index(&"foo", 1024), ("foo".hash_code() % 1024) as usize);
    let mut k = 0u64;
    while k < 100 {
        assert!(HashMap::<u64, ()>::hash_index(&k, 7) < 7);
        k += 1;
    }
}

#[test]
fn cursor_walks_the_buckets_in_order() {
    let mut map = HashMap::new();
    let mut n = 0u64;
    while n < 40 {
        map.insert(n, ());
        n += 1;
    }
    let buckets = map.bucket_count();
    assert_eq!(buckets, 64);
    let mut last = 0;
    let mut cursor = map.iter();
    while let Some((k, _)) = cursor.next() {
        let index = HashMap::<u64, ()>::hash_index(k, buckets);
        assert!(last <= index);
        last = index;
    }
}

#[test]
fn new_entry_goes_to_the_end_of_its_bucket() {
    // in one bucket the cursor yields the keys in the order of their arrival,
    // and growth places them anew in that order
    let mut map = HashMap::new();
    let mut n = 0u64;
    while n < 48 {
        map.insert(n, ());
        n += 1;
    }
    let buckets = map.bucket_count();
    let mut previous: Option<u64> = None;
    let mut cursor = map.iter();
    while let Some((&k, _)) = cursor.next() {
        if let Some(p) = previous {
            if HashMap::<u64, ()>::hash_index(&p, buckets)
                == HashMap::<u64, ()>::hash_index(&k, buckets)
            {
                assert!(p < k);
            }
        }
        previous = Some(k);
    }
}

#[test]
fn bool_and_char_keys() {
    let mut flags = HashMap::new();
    flags.insert(true, "yes");
    flags.insert(false, "no");
    assert_eq!(flags.get(&true), Some(&"yes"));
    assert_eq!(flags.get(&false), Some(&"no"));
    assert_eq!(flags.len(), 2);
    let mut letters = HashMap::new();
    letters.insert('a', 1u128);
    letters.insert('b', 2u128);
    assert_eq!(letters.get(&'a'), Some(&1));
    assert_eq!(letters.remove(&'b'), Some(2));
    assert_eq!(letters.get(&'b'), None);
}

#[test]
fn cursor_on_a_table_whose_first_buckets_are_empty() {
    let mut map = HashMap::new();
    let mut n = 0u64;
    while n < 12 {
        map.insert(n, n);
        n += 1;
    }
    // leave one entry: most of the sixteen buckets are empty
    let mut n = 1u64;
    while n < 12 {
        map.remove(&n);
        n += 1;
    }
    assert_eq!(map.bucket_count(), 16);
    let mut cursor = map.iter();
    assert_eq!(cursor.next(), Some((&0, &0)));
    assert_eq!(cursor.next(), None);
    assert_eq!(cursor.next(), None);
}
