use inefficax::node::{KeyValuePair, Node, NodeKind};
use inefficax::page::Page;
use inefficax::pager::Offset;
use inefficax::{BTree, Error};

fn key_of(n: u64) -> String {
    format!("key-{:05}", (n * 7919) % 100_003)
}

fn filled(n: u64) -> BTree {
    let mut db = BTree::open(&[]).unwrap();
    for i in 1..n + 1 {
        db.insert(key_of(i), i).unwrap();
    }
    db
}

fn root_of(db: &BTree) -> (Offset, Node) {
    let at = db.pager.config.root_page.unwrap();
    (at, db.read_node(&at).unwrap())
}

fn put(db: &mut BTree, at: &Offset, node: &Node) {
    let page = Page::try_from(node).unwrap();
    db.pager.write_page_at_offset(at, &page).unwrap();
}

#[test]
fn fresh_index_is_sound() {
    let mut db = BTree::open(&[]).unwrap();
    let before = db.image();
    assert!(db.check());
    assert_eq!(db.image(), before);
}

#[test]
fn index_stays_sound_under_inserts_and_deletes() {
    let mut db = filled(3000);
    assert!(db.check());
    for i in 1..2001u64 {
        assert_eq!(db.delete(&key_of(i)).unwrap(), Some(i));
        if i % 250 == 0 {
            assert!(db.check());
        }
    }
    assert!(db.pager.config.first_free_page.is_some());
    let before = db.image();
    assert!(db.check());
    assert_eq!(db.image(), before);
}

#[test]
fn kept_storage_is_sound_when_opened() {
    let mut db = filled(2000);
    for i in 1..500u64 {
        db.delete(&key_of(i)).unwrap();
    }
    let mut again = BTree::open(&db.image()).unwrap();
    assert!(again.check());
    assert_eq!(again.search(&key_of(1000)).unwrap(), Some(1000));
    again.insert("one more".to_string(), 1).unwrap();
    assert!(again.check());
}

#[test]
fn index_without_root_is_not_sound() {
    let mut db = BTree::open(&[]).unwrap();
    db.pager.config.root_page = None;
    assert!(!db.check());
}

#[test]
fn storage_cut_before_the_root_is_not_sound() {
    let db = BTree::open(&[]).unwrap();
    let image = db.image();
    let mut cut = BTree::open(&image[..8192]).unwrap();
    assert!(!cut.check());
}

#[test]
fn keys_out_of_order_are_not_sound() {
    let mut db = filled(10);
    let (at, mut root) = root_of(&db);
    match &mut root.node_kind {
        NodeKind::Leaf { key_value_pairs, .. } => key_value_pairs.swap(2, 3),
        _ => unreachable!(),
    }
    put(&mut db, &at, &root);
    assert!(!db.check());
}

#[test]
fn key_twice_in_a_leaf_is_not_sound() {
    let mut db = filled(10);
    let (at, mut root) = root_of(&db);
    match &mut root.node_kind {
        NodeKind::Leaf { key_value_pairs, .. } => {
            key_value_pairs[4].key = key_value_pairs[3].key.clone();
        }
        _ => unreachable!(),
    }
    put(&mut db, &at, &root);
    assert!(!db.check());
}

#[test]
fn child_named_twice_is_not_sound() {
    let mut db = filled(3000);
    let (at, mut root) = root_of(&db);
    match &mut root.node_kind {
        NodeKind::Internal { children, .. } => {
            assert!(children.len() > 2);
            children[1] = children[0].clone();
        }
        _ => unreachable!(),
    }
    put(&mut db, &at, &root);
    assert!(!db.check());
}

#[test]
fn key_outside_the_separators_is_not_sound() {
    let mut db = filled(3000);
    let (at, mut root) = root_of(&db);
    match &mut root.node_kind {
        NodeKind::Internal { keys, .. } => {
            // The first separator moves before every key of the first child.
            keys[0] = "a".to_string();
        }
        _ => unreachable!(),
    }
    put(&mut db, &at, &root);
    assert!(!db.check());
}

#[test]
fn children_of_unequal_height_are_not_sound() {
    let mut db = filled(3000);
    let (at, mut root) = root_of(&db);
    match &mut root.node_kind {
        NodeKind::Internal { children, .. } => {
            let last = children.len() - 1;
            children[last] = at;
        }
        _ => unreachable!(),
    }
    put(&mut db, &at, &root);
    assert!(!db.check());
}

#[test]
fn page_of_the_tree_in_the_free_list_is_not_sound() {
    let mut db = filled(3000);
    for i in 1..1500u64 {
        db.delete(&key_of(i)).unwrap();
    }
    assert!(db.check());
    let (at, _) = root_of(&db);
    db.pager.config.first_free_page = Some(at);
    assert!(!db.check());
}

#[test]
fn free_list_out_of_order_is_not_sound() {
    let mut db = filled(3000);
    for i in 1..1500u64 {
        db.delete(&key_of(i)).unwrap();
    }
    let first = db.pager.config.first_free_page.unwrap();
    let second = db
        .pager
        .get_page(&first)
        .unwrap()
        .get_usize_from_offset(0)
        .unwrap();
    assert!(second > first.0);
    // The list now starts at its second page, which leads back to the first.
    let mut page = db.pager.get_page(&Offset(second)).unwrap();
    page.set_u64_at_offset(0, first.0 as u64).unwrap();
    db.pager.write_page_at_offset(&Offset(second), &page).unwrap();
    db.pager.config.first_free_page = Some(Offset(second));
    assert!(!db.check());
}

#[test]
fn leaf_under_the_threshold_is_still_sound() {
    let mut db = BTree::open(&[]).unwrap();
    for i in 0..4u64 {
        db.insert(format!("{}{}", "a".repeat(254), i), i).unwrap();
    }
    for i in 0..646u64 {
        let key = format!("{}{}", (b'b' + (i / 26) as u8) as char, (b'a' + (i % 26) as u8) as char);
        db.insert(key, i).unwrap();
    }
    assert!(db.check());
}

#[test]
fn storage_of_page_zero_alone_gets_a_root() {
    let image = vec![0u8; 8192];
    let mut db = BTree::open(&image).unwrap();
    assert!(db.check());
    assert_eq!(db.search("a").unwrap(), None);
    assert_eq!(db.count_nodes().unwrap(), 1);
    assert_eq!(db.image().len(), 2 * 8192);
    db.insert("a".to_string(), 1).unwrap();
    assert_eq!(db.search("a").unwrap(), Some(1));
    assert!(db.check());
}

fn short_key(i: u64) -> String {
    format!("{}{}", (b'0' + (i / 27) as u8) as char, (b'0' + (i % 27) as u8) as char)
}

fn long_key(i: u64) -> String {
    format!("z{:0>254}", i)
}

fn leaf_of(pairs: Vec<KeyValuePair>) -> Node {
    Node::new(
        NodeKind::Leaf {
            next: None,
            previous: None,
            key_value_pairs: pairs,
            occupied_space: 0,
        },
        None,
    )
}

/// A tree of two leaves: the first is full of keys of two bytes, the second
/// holds eleven keys of 255 bytes.
fn short_and_long() -> BTree {
    let mut db = BTree::open(&[]).unwrap();
    let short: Vec<KeyValuePair> = (0..741).map(|i| KeyValuePair::new(short_key(i), i)).collect();
    let long: Vec<KeyValuePair> = (0..11).map(|i| KeyValuePair::new(long_key(i), 1000 + i)).collect();
    let first = db.pager.write_page(&Page::try_from(&leaf_of(short)).unwrap()).unwrap();
    let second = db.pager.write_page(&Page::try_from(&leaf_of(long)).unwrap()).unwrap();
    let root = Node::new(
        NodeKind::Internal {
            keys: vec![long_key(0)],
            children: vec![first, second],
            occupied_space: 0,
        },
        None,
    );
    let old_root = db.pager.config.root_page.unwrap();
    let at = db.pager.write_page(&Page::try_from(&root).unwrap()).unwrap();
    db.pager.set_root_page(at).unwrap();
    db.pager.free_page(&old_root).unwrap();
    db
}

#[test]
fn tree_written_by_hand_is_sound() {
    let mut db = short_and_long();
    assert!(db.check());
    assert_eq!(db.get_depth().unwrap(), 2);
    assert_eq!(db.count_nodes().unwrap(), 3);
    assert_eq!(db.search(&short_key(740)).unwrap(), Some(740));
    assert_eq!(db.search(&long_key(0)).unwrap(), Some(1000));
    assert_eq!(db.search(&long_key(10)).unwrap(), Some(1010));
}

#[test]
fn deletion_that_would_overfill_a_leaf_fails_and_keeps_the_index() {
    // The second leaf underflows without one of its keys. It is too large
    // to be joined with the first, and the cut by the bytes of the keys puts
    // two of the long keys behind the short ones, which is more than a page.
    let mut db = short_and_long();
    assert!(db.check());
    assert!(matches!(db.delete(&long_key(10)), Err(Error::UnexpectedError(_))));
    assert!(db.check());
    for i in 0..741 {
        assert_eq!(db.search(&short_key(i)).unwrap(), Some(i));
    }
    for i in 0..11 {
        assert_eq!(db.search(&long_key(i)).unwrap(), Some(1000 + i));
    }
    // A key of the first leaf, which stays large enough, is taken out.
    assert_eq!(db.delete(&short_key(3)).unwrap(), Some(3));
    assert!(db.check());
    assert_eq!(db.search(&short_key(3)).unwrap(), None);
}
