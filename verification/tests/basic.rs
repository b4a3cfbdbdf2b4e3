use hashmap::HashMap;

#[test]
fn basic_operations() {
    let mut map = HashMap::new();
    assert_eq!(map.len(), 0);
    assert!(map.is_empty());
    map.insert("foo", 42);
    assert_eq!(map.len(), 1);
    assert!(!map.is_empty());
    assert!(map.contains_key(&"foo"));
    assert_eq!(map.get(&"foo"), Some(&42));
    assert_eq!(map.remove(&"foo"), Some(42));
    assert_eq!(map.len(), 0);
    assert!(map.is_empty());
    assert_eq!(map.get(&"foo"), None);
}

#[test]
fn iter() {
    let mut map = HashMap::new();
    map.insert("foo", 42);
    map.insert("bar", 45);
    map.insert("baz", 50);
    map.insert("quox", 55);
    let mut count = 0;
    let mut cursor = map.iter();
    while let Some((&k, &v)) = cursor.next() {
        match k {
            "foo" => assert_eq!(v, 42),
            "bar" => assert_eq!(v, 45),
            "baz" => assert_eq!(v, 50),
            "quox" => assert_eq!(v, 55),
            _ => unreachable!(),
        }
        count += 1;
    }
    assert_eq!(count, 4);
}

#[test]
fn iteration_is_complete() {
    let mut map = HashMap::new();
    map.insert("foo", 42);
    map.insert("bar", 45);
    map.insert("baz", 50);
    map.insert("quox", 55);
    let mut seen = [false; 4];
    let mut cursor = map.iter();
    while let Some((&k, &v)) = cursor.next() {
        let slot = match (k, v) {
            ("foo", 42) => 0,
            ("bar", 45) => 1,
            ("baz", 50) => 2,
            ("quox", 55) => 3,
            _ => unreachable!(),
        };
        assert!(!seen[slot]);
        seen[slot] = true;
    }
    assert_eq!(seen, [true; 4]);
}
