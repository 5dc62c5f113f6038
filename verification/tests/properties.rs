use inefficax::node::{Node, NodeKind};
use inefficax::page_layout::{PAGE_SIZE, UNDERFLOW_SPACE};
use inefficax::pager::Offset;
use inefficax::{BTree, Error};

fn order_of(n: u64, seed: u64) -> Vec<u64> {
    let mut keys: Vec<u64> = (1..n + 1).collect();
    let mut state = seed;
    let mut i = keys.len();
    while i > 1 {
        state = state
            .wrapping_mul(6364136223846793005)
            .wrapping_add(1442695040888963407);
        let j = ((state >> 33) % (i as u64)) as usize;
        i -= 1;
        keys.swap(i, j);
    }
    keys
}

fn key_of(n: u64) -> String {
    format!("n{}", n * 1000)
}

struct Seen {
    offset: usize,
    depth: usize,
    is_root: bool,
    lo: Option<String>,
    hi: Option<String>,
    node: Node,
}

fn walk(db: &BTree) -> Vec<Seen> {
    let mut seen = vec![];
    let root = db.pager.config.root_page.unwrap();
    let mut todo = vec![(root.0, 1usize, None::<String>, None::<String>)];
    while let Some((offset, depth, lo, hi)) = todo.pop() {
        let node = db.read_node(&Offset(offset)).unwrap();
        if let NodeKind::Internal { keys, children, .. } = &node.node_kind {
            assert_eq!(children.len(), keys.len() + 1);
            for (i, child) in children.iter().enumerate() {
                let child_lo = if i == 0 { lo.clone() } else { Some(keys[i - 1].clone()) };
                let child_hi = if i == keys.len() { hi.clone() } else { Some(keys[i].clone()) };
                todo.push((child.0, depth + 1, child_lo, child_hi));
            }
        }
        seen.push(Seen { offset, depth, is_root: offset == root.0, lo, hi, node });
    }
    seen
}

fn free_list_of(db: &BTree) -> Vec<usize> {
    let mut list = vec![];
    let mut next = db.pager.config.first_free_page.map(|o| o.0).unwrap_or(0);
    while next != 0 {
        list.push(next);
        next = db
            .pager
            .get_page(&Offset(next))
            .unwrap()
            .get_usize_from_offset(0)
            .unwrap();
        assert!(list.len() <= db.pager.pages.len());
    }
    list
}

fn check_invariants(db: &BTree, underflow_too: bool) {
    let seen = walk(db);
    let free = free_list_of(db);
    // No page of the tree is free, and no page is in the tree twice.
    let mut offsets: Vec<usize> = seen.iter().map(|s| s.offset).collect();
    offsets.sort();
    assert!(offsets.windows(2).all(|w| w[0] < w[1]));
    for o in &offsets {
        assert!(!free.contains(o));
        assert!(*o % PAGE_SIZE == 0 && *o > 0 && *o < db.pager.pages.len() * PAGE_SIZE);
    }
    // The free list is in ascending order.
    assert!(free.windows(2).all(|w| w[0] < w[1]));
    // All leaves sit at the same depth.
    let depth = db.get_depth().unwrap();
    for s in &seen {
        let occupied = match &s.node.node_kind {
            NodeKind::Leaf { key_value_pairs, occupied_space, .. } => {
                assert_eq!(s.depth, depth);
                assert!(key_value_pairs.windows(2).all(|w| w[0].key < w[1].key));
                for pair in key_value_pairs {
                    if let Some(lo) = &s.lo {
                        assert!(lo <= &pair.key);
                    }
                    if let Some(hi) = &s.hi {
                        assert!(&pair.key < hi);
                    }
                }
                let slots: usize = key_value_pairs.iter().map(|p| 1 + p.key.len() + 8).sum();
                assert_eq!(*occupied_space, 34 + slots + 1);
                *occupied_space
            }
            NodeKind::Internal { keys, children, occupied_space } => {
                assert!(s.depth < depth);
                assert!(keys.windows(2).all(|w| w[0] < w[1]));
                for key in keys {
                    if let Some(lo) = &s.lo {
                        assert!(lo < key);
                    }
                    if let Some(hi) = &s.hi {
                        assert!(key < hi);
                    }
                }
                let slots: usize = keys.iter().map(|k| 1 + k.len()).sum();
                assert_eq!(*occupied_space, 18 + slots + 8 * children.len() + 1);
                *occupied_space
            }
        };
        assert!(occupied <= PAGE_SIZE);
        if underflow_too && !s.is_root {
            assert!(occupied >= UNDERFLOW_SPACE);
        }
    }
    assert_eq!(db.count_nodes().unwrap(), seen.len());
}

#[test]
fn fresh_index_is_one_empty_leaf() {
    let db = BTree::open(&[]).unwrap();
    assert_eq!(db.get_depth().unwrap(), 1);
    assert_eq!(db.count_nodes().unwrap(), 1);
    assert_eq!(db.get_file_size().unwrap(), 2 * 8192);
    assert_eq!(db.search("a").unwrap(), None);
    check_invariants(&db, true);
}

#[test]
fn ten_thousand_keys_make_a_tree_of_depth_two() {
    let mut db = BTree::open(&[]).unwrap();
    for (i, n) in order_of(10_000, 99).iter().enumerate() {
        db.insert(key_of(*n), *n).unwrap();
        if i % 2500 == 0 {
            check_invariants(&db, true);
        }
    }
    for n in order_of(10_000, 5) {
        assert_eq!(db.search(&key_of(n)).unwrap(), Some(n));
    }
    // A pair of these keys takes at most 18 bytes, so a leaf holds some 450
    // of them, and 10,000 take between 22 and 70 leaves; a separator with its
    // child takes at most 18 bytes too, so one internal node holds them all.
    assert_eq!(db.get_depth().unwrap(), 2);
    let nodes = db.count_nodes().unwrap();
    assert!(nodes >= 23 && nodes <= 71);
    check_invariants(&db, true);
}

#[test]
fn deleting_every_key_leaves_one_empty_leaf() {
    let mut db = BTree::open(&[]).unwrap();
    for n in order_of(10_000, 99) {
        db.insert(key_of(n), n).unwrap();
    }
    for (i, n) in order_of(10_000, 77).iter().enumerate() {
        assert_eq!(db.delete(&key_of(*n)).unwrap(), Some(*n));
        if i % 2500 == 0 {
            check_invariants(&db, true);
        }
    }
    assert_eq!(db.get_depth().unwrap(), 1);
    assert_eq!(db.count_nodes().unwrap(), 1);
    let root = db.read_node(&db.pager.config.root_page.unwrap()).unwrap();
    match root.node_kind {
        NodeKind::Leaf { key_value_pairs, .. } => assert!(key_value_pairs.is_empty()),
        _ => panic!("expected a leaf"),
    }
    check_invariants(&db, true);
}

#[test]
fn delete_of_an_absent_key_changes_nothing() {
    let mut db = BTree::open(&[]).unwrap();
    for n in 1..500u64 {
        db.insert(key_of(n), n).unwrap();
    }
    let before = db.image();
    assert!(matches!(db.delete("absent"), Err(Error::KeyNotFound(_))));
    assert_eq!(db.image(), before);
    for n in 1..500u64 {
        assert_eq!(db.search(&key_of(n)).unwrap(), Some(n));
    }
}

#[test]
fn reopened_index_holds_what_was_kept() {
    let mut db = BTree::open(&[]).unwrap();
    let long = |n: u64| format!("{:-<200}", key_of(n));
    for n in 1..101u64 {
        db.insert(long(n), n).unwrap();
    }
    let before = db.count_nodes().unwrap();
    let gone = order_of(100, 3);
    for n in &gone[..50] {
        assert_eq!(db.delete(&long(*n)).unwrap(), Some(*n));
    }
    assert!(db.count_nodes().unwrap() < before);
    check_invariants(&db, false);
    let image = db.image();
    let mut again = BTree::open(&image).unwrap();
    for n in &gone[..50] {
        assert_eq!(again.search(&long(*n)).unwrap(), None);
    }
    for n in &gone[50..] {
        assert_eq!(again.search(&long(*n)).unwrap(), Some(*n));
    }
    let free = free_list_of(&again);
    assert!(!free.is_empty());
    assert!(free.windows(2).all(|w| w[0] < w[1]));
    check_invariants(&again, false);
    assert_eq!(again.get_depth().unwrap(), db.get_depth().unwrap());
    assert_eq!(again.count_nodes().unwrap(), db.count_nodes().unwrap());
    // The index that was opened anew goes on as the first one would.
    again.insert("one more".to_string(), 1).unwrap();
    assert_eq!(again.search("one more").unwrap(), Some(1));
    for n in &gone[50..] {
        assert_eq!(again.delete(&long(*n)).unwrap(), Some(*n));
    }
    assert_eq!(again.count_nodes().unwrap(), 1);
    check_invariants(&again, false);
}

#[test]
fn freed_pages_are_used_again() {
    let mut db = BTree::open(&[]).unwrap();
    for n in 1..2001u64 {
        db.insert(key_of(n), n).unwrap();
    }
    let size = db.get_file_size().unwrap();
    for n in 1..2001u64 {
        db.delete(&key_of(n)).unwrap();
    }
    for n in 1..2001u64 {
        db.insert(key_of(n), n).unwrap();
    }
    assert!(db.get_file_size().unwrap() <= size + 4 * 8192);
    check_invariants(&db, true);
}

#[test]
fn keys_of_many_lengths() {
    let mut db = BTree::open(&[]).unwrap();
    let key = |n: u64| {
        let len = 1 + (n * 37 % 250) as usize;
        format!("{:0>5}{}", n, "k".repeat(len))
    };
    for n in order_of(3000, 11) {
        db.insert(key(n), n).unwrap();
    }
    check_invariants(&db, false);
    for n in order_of(3000, 12) {
        assert_eq!(db.search(&key(n)).unwrap(), Some(n));
    }
    for (i, n) in order_of(3000, 13).iter().enumerate() {
        assert_eq!(db.delete(&key(*n)).unwrap(), Some(*n));
        if i % 500 == 0 {
            check_invariants(&db, false);
        }
    }
    assert_eq!(db.count_nodes().unwrap(), 1);
}

#[test]
fn objects_are_kept_by_their_key() {
    let mut db = BTree::open(&[]).unwrap();
    for n in 1..301u64 {
        db.insert_object(key_of(n), format!("Key value: {:10}", n).into_bytes())
            .unwrap();
    }
    check_invariants(&db, true);
    for n in order_of(300, 8) {
        assert_eq!(
            db.search_object(&key_of(n)).unwrap(),
            Some(format!("Key value: {:10}", n).into_bytes())
        );
    }
    assert_eq!(db.search_object("absent").unwrap(), None);
    for n in order_of(300, 9) {
        db.delete_object(&key_of(n)).unwrap();
        assert_eq!(db.search_object(&key_of(n)).unwrap(), None);
    }
    assert!(matches!(
        db.delete_object("absent"),
        Err(Error::KeyNotFound(_))
    ));
    assert_eq!(db.count_nodes().unwrap(), 1);
    check_invariants(&db, true);
    let free = free_list_of(&db);
    assert!(free.len() >= 300);
}

#[test]
fn object_too_large_is_refused() {
    let mut db = BTree::open(&[]).unwrap();
    let before = db.image();
    assert!(matches!(
        db.insert_object("big".to_string(), vec![0; 8185]),
        Err(Error::UnexpectedError(_))
    ));
    assert_eq!(db.image(), before);
    assert_eq!(db.search("big").unwrap(), None);
}

#[test]
fn index_without_a_root_is_refused() {
    let mut db = BTree::open(&[]).unwrap();
    db.pager.config.root_page = None;
    assert!(matches!(db.search("a"), Err(Error::InvalidRootOffset)));
    assert!(matches!(
        db.insert("a".to_string(), 1),
        Err(Error::InvalidRootOffset)
    ));
    assert!(matches!(db.delete("a"), Err(Error::InvalidRootOffset)));
}

#[test]
fn internal_node_without_children_is_refused() {
    let db = BTree::open(&[]).unwrap();
    let mut image = db.image();
    // The root becomes an internal node that says it has no child.
    image[8192 + 1] = 0;
    let broken = BTree::open(&image).unwrap();
    assert!(matches!(
        broken.search("a"),
        Err(Error::InternalNodeNoChild)
    ));
}

#[test]
fn storage_that_is_cut_short_is_refused() {
    let db = BTree::open(&[]).unwrap();
    let image = db.image();
    assert!(matches!(
        BTree::open(&image[..8192 + 100]),
        Err(Error::UnexpectedError(_))
    ));
    let cut = BTree::open(&image[..8192]).unwrap();
    assert!(matches!(cut.search("a"), Err(Error::FileSystemError(_))));
}

#[test]
fn cut_by_key_bytes_can_leave_a_leaf_under_the_threshold() {
    // Four keys of 255 bytes come first in a leaf; keys of two bytes follow.
    // The cut goes where half the bytes of the keys are reached, and the
    // first leaf gets the long keys and few of the short ones.
    let mut db = BTree::open(&[]).unwrap();
    for i in 0..4u64 {
        db.insert(format!("a{}{}", i, "x".repeat(253)), i).unwrap();
    }
    let mut n = 0u64;
    'fill: for a in b'b'..=b'z' {
        for b in b'a'..=b'z' {
            db.insert(String::from_utf8(vec![a, b]).unwrap(), n).unwrap();
            n += 1;
            if db.get_depth().unwrap() == 2 {
                break 'fill;
            }
        }
    }
    assert_eq!(db.get_depth().unwrap(), 2);
    assert_eq!(n, 646);
    let seen = walk(&db);
    let smallest = seen
        .iter()
        .filter(|s| !s.is_root)
        .map(|s| match &s.node.node_kind {
            NodeKind::Leaf { occupied_space, .. } => *occupied_space,
            NodeKind::Internal { occupied_space, .. } => *occupied_space,
        })
        .min()
        .unwrap();
    assert_eq!(smallest, 35 + 4 * 264 + 68 * 11);
    assert!(smallest < UNDERFLOW_SPACE);
    check_invariants(&db, false);
    for i in 0..4u64 {
        assert_eq!(db.search(&format!("a{}{}", i, "x".repeat(253))).unwrap(), Some(i));
    }
}

#[test]
fn keys_of_one_length_keep_every_node_filled() {
    let mut db = BTree::open(&[]).unwrap();
    let key = |n: u64| format!("{:012}", n * 7919);
    let put = order_of(6000, 11);
    for (i, n) in put.iter().enumerate() {
        db.insert(key(*n), *n).unwrap();
        if i % 500 == 0 {
            check_invariants(&db, true);
        }
    }
    check_invariants(&db, true);
    assert!(db.get_depth().unwrap() >= 2);
    let gone = order_of(6000, 12);
    for (i, n) in gone.iter().enumerate() {
        assert_eq!(db.delete(&key(*n)).unwrap(), Some(*n));
        if i % 500 == 0 {
            check_invariants(&db, true);
        }
    }
    check_invariants(&db, true);
    assert_eq!(db.count_nodes().unwrap(), 1);
}

#[test]
fn no_page_is_lost() {
    // Every page of the storage is page zero, a page of the tree or a page of
    // the free list, whatever was put in and taken out.
    let mut db = BTree::open(&[]).unwrap();
    let count = |db: &BTree| {
        let pages = db.pager.pages.len();
        let nodes = db.count_nodes().unwrap();
        let free = free_list_of(db).len();
        assert_eq!(pages, 1 + nodes + free);
    };
    count(&db);
    let long = |n: u64| format!("{:-<120}", key_of(n));
    for (i, n) in order_of(1500, 21).iter().enumerate() {
        db.insert(long(*n), *n).unwrap();
        if i % 100 == 0 {
            count(&db);
        }
    }
    count(&db);
    for (i, n) in order_of(1500, 22).iter().enumerate() {
        assert_eq!(db.delete(&long(*n)).unwrap(), Some(*n));
        if i % 100 == 0 {
            count(&db);
        }
    }
    count(&db);
    assert_eq!(db.count_nodes().unwrap(), 1);
    check_invariants(&db, false);
}

#[test]
fn old_root_is_given_back() {
    let mut db = BTree::open(&[]).unwrap();
    let first = db.pager.config.root_page.unwrap();
    db.insert("a".to_string(), 1).unwrap();
    assert_eq!(free_list_of(&db), vec![first.0]);
    let second = db.pager.config.root_page.unwrap();
    assert_ne!(first, second);
    db.delete("a").unwrap();
    assert!(free_list_of(&db).contains(&second.0));
    // The page that was given back first is taken first.
    assert_eq!(db.pager.config.root_page.unwrap(), first);
}
