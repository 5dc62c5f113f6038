use inefficax::{BTree, Error};

fn shuffled(n: u64, seed: u64) -> Vec<u64> {
    let mut keys: Vec<u64> = (1..n + 1).collect();
    let mut state = seed;
    let mut i = keys.len();
    while i > 1 {
        state = state
            .wrapping_mul(6364136223846793005)
            .wrapping_add(1442695040888963407);
        let j = ((state >> 33) % (i as u64)) as usize;
        i -= 1;
        keys.swap(i, j);
    }
    keys
}

#[test]
fn insert_three_and_search() {
    let mut db = BTree::open(&[]).unwrap();
    db.insert("a".to_string(), 1).unwrap();
    db.insert("b".to_string(), 2).unwrap();
    db.insert("c".to_string(), 3).unwrap();
    assert_eq!(db.search("b").unwrap(), Some(2));
    assert_eq!(db.search("z").unwrap(), None);
    assert_eq!(db.search("a").unwrap(), Some(1));
    assert_eq!(db.search("c").unwrap(), Some(3));
}

#[test]
fn insert_key_of_256_bytes_overflows() {
    let mut db = BTree::open(&[]).unwrap();
    let key: String = std::iter::repeat('k').take(256).collect();
    assert!(matches!(db.insert(key, 1), Err(Error::KeyOverflowError)));
    let key: String = std::iter::repeat('k').take(255).collect();
    assert!(db.insert(key.clone(), 7).is_ok());
    assert_eq!(db.search(&key).unwrap(), Some(7));
}

#[test]
fn insert_ten_thousand_in_random_order() {
    let mut db = BTree::open(&[]).unwrap();
    let keys = shuffled(10_000, 42);
    for n in &keys {
        db.insert(format!("n{}", n * 1000), *n).unwrap();
    }
    for n in shuffled(10_000, 7) {
        assert_eq!(db.search(&format!("n{}", n * 1000)).unwrap(), Some(n));
    }
    assert_eq!(db.search("n500").unwrap(), None);
}

#[test]
fn delete_absent_key_is_not_found() {
    let mut db = BTree::open(&[]).unwrap();
    db.insert("a".to_string(), 1).unwrap();
    db.insert("b".to_string(), 2).unwrap();
    match db.delete("zz") {
        Err(Error::KeyNotFound(key)) => assert_eq!(key, "zz"),
        _ => panic!("expected KeyNotFound"),
    }
    assert_eq!(db.search("a").unwrap(), Some(1));
    assert_eq!(db.search("b").unwrap(), Some(2));
}

#[test]
fn delete_gives_the_value_back() {
    let mut db = BTree::open(&[]).unwrap();
    db.insert("a".to_string(), 1).unwrap();
    db.insert("b".to_string(), 2).unwrap();
    db.insert("c".to_string(), 3).unwrap();
    assert_eq!(db.delete("b").unwrap(), Some(2));
    assert_eq!(db.search("b").unwrap(), None);
    assert_eq!(db.search("a").unwrap(), Some(1));
    assert_eq!(db.search("c").unwrap(), Some(3));
    assert!(matches!(db.delete("b"), Err(Error::KeyNotFound(_))));
}

#[test]
fn delete_ten_thousand_in_random_order() {
    let mut db = BTree::open(&[]).unwrap();
    for n in shuffled(10_000, 42) {
        db.insert(format!("n{}", n * 1000), n).unwrap();
    }
    let order = shuffled(10_000, 1234);
    for (i, n) in order.iter().enumerate() {
        assert_eq!(db.delete(&format!("n{}", n * 1000)).unwrap(), Some(*n));
        if i % 1000 == 0 {
            for m in &order[..i + 1] {
                assert_eq!(db.search(&format!("n{}", m * 1000)).unwrap(), None);
            }
            for m in &order[i + 1..] {
                assert_eq!(db.search(&format!("n{}", m * 1000)).unwrap(), Some(*m));
            }
        }
    }
    for n in 1..10_001u64 {
        assert_eq!(db.search(&format!("n{}", n * 1000)).unwrap(), None);
    }
}

#[test]
fn insert_of_a_key_of_no_byte_is_refused() {
    let mut db = BTree::open(&[]).unwrap();
    db.insert("a".to_string(), 1).unwrap();
    let before = db.image();
    assert!(matches!(
        db.insert(String::new(), 2),
        Err(Error::KeyParseError)
    ));
    assert_eq!(db.image(), before);
    assert_eq!(db.search("a").unwrap(), Some(1));
    assert_eq!(db.search("").unwrap(), None);
}

#[test]
fn full_leaf_of_long_and_short_keys_is_cut_in_two() {
    // One key of 255 bytes comes first in the leaf; keys of two bytes fill it.
    let mut db = BTree::open(&[]).unwrap();
    db.insert("!".repeat(255), 0).unwrap();
    let mut n = 0u64;
    while db.get_depth().unwrap() == 1 {
        let key = format!(
            "{}{}",
            (b'0' + (n / 64) as u8) as char,
            (b'0' + (n % 64) as u8) as char
        );
        db.insert(key, n + 1).unwrap();
        n += 1;
    }
    assert_eq!(db.get_depth().unwrap(), 2);
    assert_eq!(db.count_nodes().unwrap(), 3);
    assert!(db.check());
    assert_eq!(db.search(&"!".repeat(255)).unwrap(), Some(0));
    for i in 0..n {
        let key = format!(
            "{}{}",
            (b'0' + (i / 64) as u8) as char,
            (b'0' + (i % 64) as u8) as char
        );
        assert_eq!(db.search(&key).unwrap(), Some(i + 1));
    }
}
