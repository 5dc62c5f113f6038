use inefficax::node::{KeyValuePair, Node, NodeKind};
use inefficax::page::Page;
use inefficax::page_layout::PAGE_SIZE;
use inefficax::pager::Offset;
use inefficax::Error;

fn leaf(pairs: Vec<(&str, u64)>) -> Node {
    Node::new(
        NodeKind::Leaf {
            next: None,
            previous: None,
            key_value_pairs: pairs
                .into_iter()
                .map(|(k, v)| KeyValuePair::new(k.to_string(), v))
                .collect(),
            occupied_space: 0,
        },
        None,
    )
}

fn internal(keys: Vec<&str>, children: Vec<usize>) -> Node {
    Node::new(
        NodeKind::Internal {
            keys: keys.into_iter().map(|k| k.to_string()).collect(),
            children: children.into_iter().map(Offset).collect(),
            occupied_space: 0,
        },
        None,
    )
}

#[test]
fn key_value_pair_new() {
    let pair = KeyValuePair::new("k".to_string(), 9);
    assert_eq!(pair.key, "k");
    assert_eq!(pair.value, 9);
}

#[test]
fn node_kind_bytes() {
    assert_eq!(leaf(vec![]).node_kind.kind_byte(), 1);
    assert_eq!(internal(vec![], vec![]).node_kind.kind_byte(), 0);
    assert!(matches!(
        NodeKind::try_from(0),
        Ok(NodeKind::Internal { .. })
    ));
    assert!(matches!(NodeKind::try_from(1), Ok(NodeKind::Leaf { .. })));
    assert!(matches!(NodeKind::try_from(2), Err(Error::InvalidNodeKind)));
    assert!(matches!(
        NodeKind::try_from(255),
        Err(Error::InvalidNodeKind)
    ));
}

#[test]
fn leaf_layout_is_bit_exact() {
    let node = Node::new(
        NodeKind::Leaf {
            next: Some(Offset(8192)),
            previous: Some(Offset(16384)),
            key_value_pairs: vec![
                KeyValuePair::new("ab".to_string(), 0x0102),
                KeyValuePair::new("c".to_string(), 7),
            ],
            occupied_space: 0,
        },
        None,
    );
    let data = Page::try_from(&node).unwrap().get_data();
    let mut expected = vec![1u8, 1];
    expected.extend_from_slice(&[0; 8]);
    expected.extend_from_slice(&[0, 0, 0, 0, 0, 0, 0x20, 0]);
    expected.extend_from_slice(&[0, 0, 0, 0, 0, 0, 0x40, 0]);
    expected.extend_from_slice(&[0, 0, 0, 0, 0, 0, 0, 2]);
    expected.extend_from_slice(&[2, b'a', b'b', 0, 0, 0, 0, 0, 0, 1, 2]);
    expected.extend_from_slice(&[1, b'c', 0, 0, 0, 0, 0, 0, 0, 7]);
    assert_eq!(&data[..expected.len()], &expected[..]);
    assert!(data[expected.len()..].iter().all(|b| *b == 0));
}

#[test]
fn internal_layout_is_bit_exact() {
    let node = Node::new(
        NodeKind::Internal {
            keys: vec!["m".to_string(), "tuv".to_string()],
            children: vec![Offset(8192), Offset(16384), Offset(24576)],
            occupied_space: 0,
        },
        Some(Offset(0x0a0b)),
    );
    let data = Page::try_from(&node).unwrap().get_data();
    let mut expected = vec![0u8, 0];
    expected.extend_from_slice(&[0, 0, 0, 0, 0, 0, 0x0a, 0x0b]);
    expected.extend_from_slice(&[0, 0, 0, 0, 0, 0, 0, 3]);
    expected.extend_from_slice(&[1, b'm', 3, b't', b'u', b'v']);
    expected.extend_from_slice(&[0, 0, 0, 0, 0, 0, 0x20, 0]);
    expected.extend_from_slice(&[0, 0, 0, 0, 0, 0, 0x40, 0]);
    expected.extend_from_slice(&[0, 0, 0, 0, 0, 0, 0x60, 0]);
    assert_eq!(&data[..expected.len()], &expected[..]);
    assert!(data[expected.len()..].iter().all(|b| *b == 0));
}

#[test]
fn leaf_round_trip_and_occupied_space() {
    let node = Node::new(
        NodeKind::Leaf {
            next: Some(Offset(8192)),
            previous: None,
            key_value_pairs: vec![
                KeyValuePair::new("A simple key".to_string(), 100),
                KeyValuePair::new("Behold this simple key".to_string(), 100),
                KeyValuePair::new("Circus circles etc".to_string(), 100),
            ],
            occupied_space: 0,
        },
        None,
    );
    let read = Node::try_from(Page::try_from(&node).unwrap()).unwrap();
    assert_eq!(read.parent_offset, None);
    match read.node_kind {
        NodeKind::Leaf {
            next,
            previous,
            key_value_pairs,
            occupied_space,
        } => {
            assert_eq!(next, Some(Offset(8192)));
            assert_eq!(previous, None);
            assert_eq!(key_value_pairs.len(), 3);
            assert_eq!(key_value_pairs[1].key, "Behold this simple key");
            assert_eq!(key_value_pairs[2].value, 100);
            // header, three slots of one byte, the key and eight bytes, and one.
            assert_eq!(occupied_space, 34 + (1 + 12 + 8) + (1 + 22 + 8) + (1 + 18 + 8) + 1);
        }
        _ => panic!("expected a leaf"),
    }
}

#[test]
fn internal_round_trip_and_occupied_space() {
    let node = internal(
        vec!["Key number 1", "Key number 2", "Key number 3 is longer"],
        vec![8192, 16384, 24576, 32768],
    );
    let read = Node::try_from(Page::try_from(&node).unwrap()).unwrap();
    match read.node_kind {
        NodeKind::Internal {
            keys,
            children,
            occupied_space,
        } => {
            assert_eq!(keys, vec!["Key number 1", "Key number 2", "Key number 3 is longer"]);
            assert_eq!(
                children,
                vec![Offset(8192), Offset(16384), Offset(24576), Offset(32768)]
            );
            assert_eq!(occupied_space, 18 + (1 + 12) + (1 + 12) + (1 + 22) + 4 * 8 + 1);
        }
        _ => panic!("expected an internal node"),
    }
}

#[test]
fn empty_leaf_round_trip() {
    let read = Node::try_from(Page::try_from(&leaf(vec![])).unwrap()).unwrap();
    match read.node_kind {
        NodeKind::Leaf {
            key_value_pairs,
            occupied_space,
            ..
        } => {
            assert!(key_value_pairs.is_empty());
            assert_eq!(occupied_space, 35);
        }
        _ => panic!("expected a leaf"),
    }
}

#[test]
fn parent_offset_round_trip() {
    let node = Node::new(
        NodeKind::Leaf {
            next: None,
            previous: None,
            key_value_pairs: vec![],
            occupied_space: 0,
        },
        Some(Offset(40960)),
    );
    let page = Page::try_from(&node).unwrap();
    assert_eq!(page.get_data()[0], 0);
    let read = Node::try_from(page).unwrap();
    assert_eq!(read.parent_offset, Some(Offset(40960)));
}

#[test]
fn keys_that_are_not_ascii_round_trip() {
    let node = leaf(vec![("clé", 1), ("ключ", 2), ("鍵", 3)]);
    let page = Page::try_from(&node).unwrap();
    assert_eq!(page.get_data()[34], 4);
    let read = Node::try_from(page).unwrap();
    match read.node_kind {
        NodeKind::Leaf { key_value_pairs, .. } => {
            assert_eq!(key_value_pairs[0].key, "clé");
            assert_eq!(key_value_pairs[1].key, "ключ");
            assert_eq!(key_value_pairs[2].key, "鍵");
        }
        _ => panic!("expected a leaf"),
    }
}

#[test]
fn key_that_is_not_utf8_is_a_parse_error() {
    let node = leaf(vec![("ab", 1)]);
    let mut data = Page::try_from(&node).unwrap().get_data();
    data[35] = 0xff;
    assert!(matches!(
        Node::try_from(Page::new(data)),
        Err(Error::KeyParseError)
    ));
}

#[test]
fn key_of_no_bytes_is_a_parse_error() {
    let node = leaf(vec![("ab", 1)]);
    let mut data = Page::try_from(&node).unwrap().get_data();
    data[34] = 0;
    assert!(matches!(
        Node::try_from(Page::new(data)),
        Err(Error::KeyParseError)
    ));
    let written = Page::try_from(&leaf(vec![("", 1)])).unwrap();
    assert!(matches!(Node::try_from(written), Err(Error::KeyParseError)));
}

#[test]
fn kind_that_is_neither_is_invalid() {
    let mut data = [0u8; PAGE_SIZE];
    data[1] = 2;
    assert!(matches!(
        Node::try_from(Page::new(data)),
        Err(Error::InvalidNodeKind)
    ));
}

#[test]
fn entries_past_the_page_are_unexpected() {
    let mut data = [0u8; PAGE_SIZE];
    data[0] = 1;
    data[1] = 1;
    data[33] = 1;
    data[34] = 1;
    data[35] = b'a';
    let ok = Node::try_from(Page::new(data)).unwrap();
    assert!(matches!(ok.node_kind, NodeKind::Leaf { .. }));
    // A count that the page cannot hold.
    data[32] = 0xff;
    assert!(matches!(
        Node::try_from(Page::new(data)),
        Err(Error::KeyParseError) | Err(Error::UnexpectedError(_))
    ));
    let mut full = [b'a'; PAGE_SIZE];
    full[0] = 1;
    full[1] = 1;
    for b in full[10..34].iter_mut() {
        *b = 0;
    }
    full[32] = 0xff;
    full[33] = 0xff;
    for i in 0..816 {
        let at = 34 + i * 10;
        full[at] = 1;
    }
    assert!(matches!(
        Node::try_from(Page::new(full)),
        Err(Error::UnexpectedError(_))
    ));
}

#[test]
fn key_of_256_bytes_overflows() {
    let long: String = std::iter::repeat('x').take(256).collect();
    assert!(matches!(
        Page::try_from(&leaf(vec![(&long, 1)])),
        Err(Error::KeyOverflowError)
    ));
    assert!(matches!(
        Page::try_from(&internal(vec![&long], vec![8192, 16384])),
        Err(Error::KeyOverflowError)
    ));
    let fits: String = std::iter::repeat('x').take(255).collect();
    assert!(Page::try_from(&leaf(vec![(&fits, 1)])).is_ok());
}

#[test]
fn leaf_that_reaches_the_end_of_the_page_is_refused() {
    // 30 pairs of 255 bytes take 30 * 264 = 7920 bytes: with the header, 7954.
    let keys: Vec<String> = (0..31)
        .map(|i| format!("{:0>255}", i))
        .collect();
    let mut pairs: Vec<(&str, u64)> = keys[..30].iter().map(|k| (k.as_str(), 1u64)).collect();
    assert!(Page::try_from(&leaf(pairs.clone())).is_ok());
    // One more of 229 bytes ends at 7954 + 238 = 8192: the end of the page.
    let last: String = std::iter::repeat('z').take(229).collect();
    pairs.push((&last, 2));
    assert!(matches!(
        Page::try_from(&leaf(pairs.clone())),
        Err(Error::UnexpectedError(_))
    ));
    pairs.pop();
    // One byte less ends at 8191, and fits.
    let shorter: String = std::iter::repeat('z').take(228).collect();
    pairs.push((&shorter, 2));
    let page = Page::try_from(&leaf(pairs)).unwrap();
    match Node::try_from(page).unwrap().node_kind {
        NodeKind::Leaf { occupied_space, .. } => assert_eq!(occupied_space, PAGE_SIZE),
        _ => panic!("expected a leaf"),
    }
}

#[test]
fn internal_node_with_too_many_children_is_refused() {
    // The header and 1021 children end at 18 + 8168 = 8186; one more would
    // reach past the end of the page.
    let children: Vec<usize> = (1..1023).map(|i| i * 8192).collect();
    let node = Node::new(
        NodeKind::Internal {
            keys: vec![],
            children: children[..1021].iter().map(|c| Offset(*c)).collect(),
            occupied_space: 0,
        },
        None,
    );
    assert!(Page::try_from(&node).is_ok());
    let node = Node::new(
        NodeKind::Internal {
            keys: vec![],
            children: children.iter().map(|c| Offset(*c)).collect(),
            occupied_space: 0,
        },
        None,
    );
    assert!(matches!(
        Page::try_from(&node),
        Err(Error::UnexpectedError(_))
    ));
}
