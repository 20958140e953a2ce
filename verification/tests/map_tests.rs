use chainmap::HashMap;

#[test]
fn empty() {
    let map = HashMap::<u32, u32>::new();
    assert_eq!(map.is_empty(), true);
    assert_eq!(map.len(), 0);
}

#[test]
fn insert() {
    let mut map = HashMap::new();
    map.insert("hello".to_string(), 42);
    assert_eq!(map.get("hello".to_string()), Some(&42));
}

#[test]
fn get() {
    let mut map = HashMap::new();
    assert_eq!(map.get("hello".to_string()), None);
    map.insert("hello".to_string(), 42);
    assert_eq!(map.get("hello".to_string()), Some(&42));
}

#[test]
fn contains_key() {
    let mut map = HashMap::new();
    assert_eq!(map.contains_key("hello".to_string()), false);
    map.insert("hello".to_string(), 42);
    assert_eq!(map.contains_key("hello".to_string()), true);
}

#[test]
fn remove() {
    let mut map = HashMap::new();
    map.insert("hello".to_string(), 42);
    assert_eq!(map.remove("hello".to_string()), Some(42));
    assert_eq!(map.get("hello".to_string()), None);
}

#[test]
fn iterator() {
    let mut map = HashMap::<String, String>::new();
    let books = vec![("Book1", "Review1"), ("Book2", "Review2")];

    for (title, review) in &books {
        map.insert(title.to_string(), review.to_string());
    }

    let mut books2: Vec<(String, String)> = Vec::new();
    let mut it = map.iter();
    while let Some(p) = it.next() {
        books2.push((p.0.clone(), p.1.clone()));
    }
    // Iteration order is unspecified: every inserted pair comes exactly once.
    assert_eq!(books2.len(), books.len());
    for (title, review) in &books {
        assert!(books2.contains(&(title.to_string(), review.to_string())));
    }
}

#[test]
fn iterator_empty_map() {
    let map = HashMap::<u64, u64>::new();
    let mut it = map.iter();
    assert!(it.next().is_none());
    assert!(it.next().is_none());
}

#[test]
fn replace_returns_prior_value() {
    let mut map = HashMap::new();
    assert_eq!(map.insert("a".to_string(), 1), None);
    assert_eq!(map.insert("b".to_string(), 2), None);
    assert_eq!(map.insert("a".to_string(), 3), Some(1));
    assert_eq!(map.len(), 2);
    assert_eq!(map.get("a".to_string()), Some(&3));
    assert_eq!(map.get("b".to_string()), Some(&2));
}

#[test]
fn absent_key_on_empty_map() {
    let map = HashMap::<String, u32>::new();
    assert_eq!(map.get("x".to_string()), None);
    assert_eq!(map.contains_key("x".to_string()), false);
}

#[test]
fn ten_distinct_keys_from_zero_buckets() {
    let mut map = HashMap::new();
    for i in 0u64..10 {
        map.insert(i, i * 100);
    }
    assert_eq!(map.len(), 10);
    for i in 0u64..10 {
        assert_eq!(map.get(i), Some(&(i * 100)));
    }
}

#[test]
fn remove_absent_key_leaves_len() {
    let mut map = HashMap::new();
    map.insert(7u32, "seven");
    assert_eq!(map.remove(8u32), None);
    assert_eq!(map.len(), 1);
    assert_eq!(map.get(7u32), Some(&"seven"));
}

#[test]
fn remove_decrements_len_once() {
    let mut map = HashMap::new();
    map.insert(1u64, 10u64);
    map.insert(2u64, 20u64);
    map.insert(3u64, 30u64);
    assert_eq!(map.len(), 3);
    assert_eq!(map.remove(2u64), Some(20));
    assert_eq!(map.len(), 2);
    assert_eq!(map.get(2u64), None);
    assert_eq!(map.remove(2u64), None);
    assert_eq!(map.len(), 2);
    assert_eq!(map.get(1u64), Some(&10));
    assert_eq!(map.get(3u64), Some(&30));
}

#[test]
fn growth_preserves_mappings() {
    // Many inserts force repeated resizes; every earlier mapping survives.
    let mut map = HashMap::new();
    for i in 0usize..100 {
        map.insert(i, i + 1);
        assert_eq!(map.get(0usize), Some(&1));
    }
    assert_eq!(map.len(), 100);
    for i in 0usize..100 {
        assert_eq!(map.get(i), Some(&(i + 1)));
    }
}

#[test]
fn len_counts_distinct_keys() {
    let mut map = HashMap::new();
    for i in 0i64..20 {
        map.insert(i % 5, i);
    }
    assert_eq!(map.len(), 5);
    for i in 0i64..5 {
        assert_eq!(map.get(i), Some(&(15 + i)));
    }
}

#[test]
fn iteration_yields_every_pair_once() {
    let mut map = HashMap::new();
    for i in 0u32..16 {
        map.insert(i, i * 2);
    }
    let mut seen: Vec<u32> = Vec::new();
    let mut it = map.iter();
    while let Some(p) = it.next() {
        assert_eq!(p.1, p.0 * 2);
        assert!(!seen.contains(&p.0));
        seen.push(p.0);
    }
    assert_eq!(seen.len(), 16);
}

#[test]
fn small_integer_keys() {
    let mut bytes = HashMap::new();
    bytes.insert(200u8, 'x');
    bytes.insert(201u8, 'y');
    assert_eq!(bytes.get(200u8), Some(&'x'));
    assert_eq!(bytes.get(201u8), Some(&'y'));

    let mut shorts = HashMap::new();
    shorts.insert(40_000u16, -1i32);
    assert_eq!(shorts.get(40_000u16), Some(&-1));

    let mut signed = HashMap::new();
    signed.insert(-5i32, "negative");
    signed.insert(5i32, "positive");
    assert_eq!(signed.get(-5i32), Some(&"negative"));
    assert_eq!(signed.get(5i32), Some(&"positive"));
}
