use inefficax::btree::{find_child, find_pair};
use inefficax::split::{find_median_key_idx, split_key_value_pairs};
use inefficax::key::{key_order, str_order, KeyOrder};
use inefficax::node::KeyValuePair;
use inefficax::Error;

fn keys(list: &[&str]) -> Vec<String> {
    list.iter().map(|k| k.to_string()).collect()
}

fn pairs(list: &[&str]) -> Vec<KeyValuePair> {
    list.iter()
        .enumerate()
        .map(|(i, k)| KeyValuePair::new(k.to_string(), i as u64))
        .collect()
}

#[test]
fn keys_are_ordered_byte_by_byte() {
    assert_eq!(str_order("a", "b"), KeyOrder::Before);
    assert_eq!(str_order("b", "a"), KeyOrder::After);
    assert_eq!(str_order("abc", "abc"), KeyOrder::Same);
    assert_eq!(str_order("ab", "abc"), KeyOrder::Before);
    assert_eq!(str_order("abc", "ab"), KeyOrder::After);
    assert_eq!(str_order("", "a"), KeyOrder::Before);
    assert_eq!(str_order("", ""), KeyOrder::Same);
    assert_eq!(str_order("n10000", "n2000"), KeyOrder::Before);
    assert_eq!(str_order("Z", "a"), KeyOrder::Before);
    assert_eq!(str_order("é", "z"), KeyOrder::After);
    assert_eq!(key_order(&[1, 255], &[2]), KeyOrder::Before);
    for (a, b) in [("x", "y"), ("abc", "abd"), ("a", "aa"), ("ñ", "o")] {
        let expected = match a.cmp(b) {
            std::cmp::Ordering::Less => KeyOrder::Before,
            std::cmp::Ordering::Equal => KeyOrder::Same,
            std::cmp::Ordering::Greater => KeyOrder::After,
        };
        assert_eq!(str_order(a, b), expected);
    }
}

#[test]
fn child_is_the_first_separator_after_the_key() {
    let separators = keys(&["d", "h", "m"]);
    assert_eq!(find_child(&separators, "a"), 0);
    assert_eq!(find_child(&separators, "c"), 0);
    // A key that is a separator goes to the child after it.
    assert_eq!(find_child(&separators, "d"), 1);
    assert_eq!(find_child(&separators, "e"), 1);
    assert_eq!(find_child(&separators, "h"), 2);
    assert_eq!(find_child(&separators, "l"), 2);
    assert_eq!(find_child(&separators, "m"), 3);
    assert_eq!(find_child(&separators, "z"), 3);
    assert_eq!(find_child(&keys(&[]), "z"), 0);
}

#[test]
fn pair_is_found_or_its_place_is() {
    let list = pairs(&["b", "d", "f"]);
    assert_eq!(find_pair(&list, "b"), Ok(0));
    assert_eq!(find_pair(&list, "d"), Ok(1));
    assert_eq!(find_pair(&list, "f"), Ok(2));
    assert_eq!(find_pair(&list, "a"), Err(0));
    assert_eq!(find_pair(&list, "c"), Err(1));
    assert_eq!(find_pair(&list, "e"), Err(2));
    assert_eq!(find_pair(&list, "g"), Err(3));
    assert_eq!(find_pair(&pairs(&[]), "g"), Err(0));
}

#[test]
fn median_is_where_more_than_half_the_bytes_are_reached() {
    // 4 keys of 3 bytes: 12 in all; the sum has to pass 7.
    assert_eq!(find_median_key_idx(&keys(&["aaa", "bbb", "ccc", "ddd"])), 2);
    // 10 bytes in all; the sum has to pass 6: 1, 2, 3, 10.
    assert_eq!(find_median_key_idx(&keys(&["a", "b", "c", "ddddddd"])), 3);
    // 1 + 1 + 1 + 1: the sum has to pass 3.
    assert_eq!(find_median_key_idx(&keys(&["a", "b", "c", "d"])), 3);
    // The first key alone passes: no cut.
    assert_eq!(find_median_key_idx(&keys(&["aaaaaaaa", "b", "c"])), 0);
    // Nothing passes: 2 bytes in all, the sum has to pass 2.
    assert_eq!(find_median_key_idx(&keys(&["a", "b"])), 0);
    assert_eq!(find_median_key_idx(&keys(&[])), 0);
    assert_eq!(find_median_key_idx(&keys(&["abc"])), 0);
}

#[test]
fn pairs_are_cut_at_the_median() {
    let mut list = pairs(&["aaa", "bbb", "ccc", "ddd"]);
    let (median, rest) = split_key_value_pairs(&mut list).unwrap();
    assert_eq!(median, "ccc");
    assert_eq!(list, pairs(&["aaa", "bbb"]));
    assert_eq!(rest.len(), 2);
    assert_eq!(rest[0], KeyValuePair::new("ccc".to_string(), 2));
    assert_eq!(rest[1], KeyValuePair::new("ddd".to_string(), 3));
}

#[test]
fn cut_that_leaves_nothing_first_is_impossible() {
    let mut list = pairs(&["aaaaaaaa", "b", "c"]);
    assert!(matches!(
        split_key_value_pairs(&mut list),
        Err(Error::ImpossibleSplit)
    ));
    assert_eq!(list, pairs(&["aaaaaaaa", "b", "c"]));
    let mut one = pairs(&["only"]);
    assert!(matches!(
        split_key_value_pairs(&mut one),
        Err(Error::ImpossibleSplit)
    ));
    let mut none = pairs(&[]);
    assert!(matches!(
        split_key_value_pairs(&mut none),
        Err(Error::ImpossibleSplit)
    ));
}
