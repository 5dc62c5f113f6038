//! The space that keys take, and why a full node can be cut in two: there
//! is a place to cut it, and each half fits in a page with the entry that
//! filled the node.

use crate::key::Key;
use crate::leaf::leaf_ok;
use crate::node::{key_storable, keys_space, lemma_keys_space_at, pairs_space};
use crate::page_layout::{
    INTERNAL_HEADER_SIZE, KEY_MAX_SIZE, LEAF_HEADER_SIZE, PAGE_SIZE, PTR_SIZE, VALUE_SIZE,
};
use crate::split::{is_median, key_bytes, no_median, pair_keys};
use vstd::prelude::*;

verus! {

/// Whether each of `keys` has at least one byte and at most 255.
pub open spec fn keys_sized(keys: Seq<Key>) -> bool {
    forall|i: int| 0 <= i < keys.len() ==> 1 <= (#[trigger] keys[i]).len() <= KEY_MAX_SIZE
}

/// The bytes of the first keys depend on those keys only.
pub proof fn lemma_key_bytes_same(a: Seq<Key>, b: Seq<Key>, n: int)
    requires
        0 <= n <= a.len(),
        n <= b.len(),
        forall|i: int| 0 <= i < n ==> a[i] == b[i],
    ensures
        key_bytes(a, n) == key_bytes(b, n),
    decreases n,
{
    if n > 0 {
        lemma_key_bytes_same(a, b, n - 1);
    }
}

/// The keys from `a` up to `b` have between one and 255 bytes for each of
/// them together.
pub proof fn lemma_key_bytes_between(keys: Seq<Key>, a: int, b: int)
    requires
        0 <= a <= b <= keys.len(),
        keys_sized(keys),
    ensures
        b - a <= key_bytes(keys, b) - key_bytes(keys, a) <= 255 * (b - a),
    decreases b - a,
{
    if a < b {
        lemma_key_bytes_between(keys, a, b - 1);
    }
}

/// Stored keys take one byte each, and their own bytes.
pub proof fn lemma_keys_space_bytes(keys: Seq<Key>)
    ensures
        keys_space(keys) == keys.len() + key_bytes(keys, keys.len() as int),
    decreases keys.len(),
{
    if keys.len() > 0 {
        lemma_keys_space_bytes(keys.drop_last());
        lemma_key_bytes_same(keys, keys.drop_last(), keys.len() - 1);
    }
}

/// Stored pairs take nine bytes each, and the bytes of their keys.
pub proof fn lemma_pairs_space_bytes(pairs: Seq<(Key, u64)>)
    ensures
        pairs_space(pairs) == 9 * pairs.len() + key_bytes(pair_keys(pairs), pairs.len() as int),
    decreases pairs.len(),
{
    if pairs.len() > 0 {
        lemma_pairs_space_bytes(pairs.drop_last());
        lemma_key_bytes_same(pair_keys(pairs), pair_keys(pairs.drop_last()), pairs.len() - 1);
    }
}

/// The keys from `a` up to `b`, taken by themselves, take the space that
/// they take among the others.
pub proof fn lemma_keys_space_part(keys: Seq<Key>, a: int, b: int)
    requires
        0 <= a <= b <= keys.len(),
    ensures
        keys_space(keys.subrange(a, b)) == (b - a) + key_bytes(keys, b) - key_bytes(keys, a),
    decreases b - a,
{
    if a < b {
        lemma_keys_space_part(keys, a, b - 1);
        assert(keys.subrange(a, b).drop_last() =~= keys.subrange(a, b - 1));
    } else {
        assert(keys.subrange(a, b) =~= Seq::<Key>::empty());
    }
}

/// The pairs from `a` up to `b`, taken by themselves, take the space that
/// they take among the others.
pub proof fn lemma_pairs_space_part(pairs: Seq<(Key, u64)>, a: int, b: int)
    requires
        0 <= a <= b <= pairs.len(),
    ensures
        pairs_space(pairs.subrange(a, b)) == 9 * (b - a) + key_bytes(pair_keys(pairs), b)
            - key_bytes(pair_keys(pairs), a),
    decreases b - a,
{
    if a < b {
        lemma_pairs_space_part(pairs, a, b - 1);
        assert(pairs.subrange(a, b).drop_last() =~= pairs.subrange(a, b - 1));
    } else {
        assert(pairs.subrange(a, b) =~= Seq::<(Key, u64)>::empty());
    }
}

/// Keys of 510 bytes or more have a place to be cut in two, and it is not
/// before the first of them.
pub proof fn lemma_median_within(keys: Seq<Key>)
    requires
        keys_sized(keys),
        key_bytes(keys, keys.len() as int) >= 2 * KEY_MAX_SIZE,
    ensures
        !is_median(keys, 0),
        !no_median(keys),
{
    let n = keys.len() as int;
    assert(n >= 1);
    lemma_key_bytes_between(keys, 0, 1);
    assert(key_bytes(keys, 0) == 0);
    if no_median(keys) {
        assert(key_bytes(keys, (n - 1) + 1) <= key_bytes(keys, n) / 2 + 1);
    }
}

/// A leaf that has no room for one more pair is cut after its first pair
/// or later, and each half has room for that pair.
pub proof fn lemma_leaf_halves_fit(pairs: Seq<(Key, u64)>, m: int, slot: int)
    requires
        keys_sized(pair_keys(pairs)),
        is_median(pair_keys(pairs), m),
        LEAF_HEADER_SIZE + pairs_space(pairs) + 1 <= PAGE_SIZE,
        LEAF_HEADER_SIZE + pairs_space(pairs) + 1 + slot > PAGE_SIZE,
        0 <= slot <= 1 + KEY_MAX_SIZE + VALUE_SIZE,
    ensures
        1 <= m < pairs.len(),
        LEAF_HEADER_SIZE + pairs_space(pairs.subrange(0, m)) + slot + 1 <= PAGE_SIZE,
        LEAF_HEADER_SIZE + pairs_space(pairs.subrange(m, pairs.len() as int)) + slot + 1
            <= PAGE_SIZE,
{
    let keys = pair_keys(pairs);
    let n = pairs.len() as int;
    let total = key_bytes(keys, n);
    lemma_pairs_space_bytes(pairs);
    lemma_key_bytes_between(keys, 0, n);
    assert(key_bytes(keys, 0) == 0);
    assert(total >= 2 * KEY_MAX_SIZE);
    lemma_median_within(keys);
    assert(m >= 1);
    assert(key_bytes(keys, (m - 1) + 1) <= total / 2 + 1);
    lemma_pairs_space_part(pairs, 0, m);
    lemma_pairs_space_part(pairs, m, n);
    lemma_key_bytes_between(keys, m, m + 1);
    lemma_key_bytes_between(keys, m + 1, n);
    lemma_key_bytes_between(keys, 0, m);
}

/// An internal node that one more key and child have filled is cut after
/// its first key or later, and each half fits in a page.
pub proof fn lemma_internal_halves_fit(keys: Seq<Key>, m: int)
    requires
        keys_sized(keys),
        is_median(keys, m),
        INTERNAL_HEADER_SIZE + keys_space(keys) + PTR_SIZE * (keys.len() + 1) + 1 >= PAGE_SIZE,
        INTERNAL_HEADER_SIZE + keys_space(keys) + PTR_SIZE * (keys.len() + 1) + 1 <= PAGE_SIZE + 1
            + KEY_MAX_SIZE + PTR_SIZE,
    ensures
        1 <= m < keys.len(),
        INTERNAL_HEADER_SIZE + keys_space(keys.subrange(0, m)) + PTR_SIZE * (m + 1) + 1
            <= PAGE_SIZE,
        INTERNAL_HEADER_SIZE + keys_space(keys.subrange(m + 1, keys.len() as int)) + PTR_SIZE * (
        keys.len() - m) + 1 <= PAGE_SIZE,
{
    let n = keys.len() as int;
    let total = key_bytes(keys, n);
    lemma_keys_space_bytes(keys);
    lemma_key_bytes_between(keys, 0, n);
    assert(key_bytes(keys, 0) == 0);
    assert(total >= 2 * KEY_MAX_SIZE);
    lemma_median_within(keys);
    assert(m >= 1);
    assert(key_bytes(keys, (m - 1) + 1) <= total / 2 + 1);
    lemma_keys_space_part(keys, 0, m);
    lemma_keys_space_part(keys, m + 1, n);
    lemma_key_bytes_between(keys, m, m + 1);
    lemma_key_bytes_between(keys, m + 1, n);
    lemma_key_bytes_between(keys, 0, m);
}

/// The keys of the pairs of a leaf have at least one byte and at most 255.
pub proof fn lemma_leaf_sized(pairs: Seq<(Key, u64)>, lo: Option<Key>, hi: Option<Key>)
    requires
        leaf_ok(pairs, lo, hi),
    ensures
        keys_sized(pair_keys(pairs)),
{
    assert forall|i: int| 0 <= i < pairs.len() implies 1 <= (#[trigger] pair_keys(pairs)[i]).len()
        <= KEY_MAX_SIZE by {
        assert(key_storable(pairs[i].0));
    }
}

/// Putting a key that can be stored among keys that can be stored gives
/// keys that can be stored, which take the space of one key more.
pub proof fn lemma_keys_insert_space(keys: Seq<Key>, idx: int, key: Key)
    requires
        0 <= idx <= keys.len(),
        forall|i: int| 0 <= i < keys.len() ==> key_storable(#[trigger] keys[i]),
        key_storable(key),
    ensures
        keys_space(keys.insert(idx, key)) == keys_space(keys) + 1 + key.len(),
        keys_sized(keys.insert(idx, key)),
        forall|i: int| 0 <= i <= keys.len() ==> key_storable(#[trigger] keys.insert(idx, key)[i]),
{
    let more = keys.insert(idx, key);
    lemma_keys_space_at(more, idx);
    assert(more.remove(idx) =~= keys);
    assert forall|i: int| 0 <= i <= keys.len() implies key_storable(#[trigger] more[i]) by {
        if i < idx {
            assert(more[i] == keys[i]);
        } else if i > idx {
            assert(more[i] == keys[i - 1]);
        }
    }
}

/// A leaf that has no room for one more pair has a place to be cut in two,
/// which is not before its first pair.
pub proof fn lemma_full_leaf_median(pairs: Seq<(Key, u64)>, slot: int)
    requires
        keys_sized(pair_keys(pairs)),
        LEAF_HEADER_SIZE + pairs_space(pairs) + 1 + slot > PAGE_SIZE,
        0 <= slot <= 1 + KEY_MAX_SIZE + VALUE_SIZE,
    ensures
        !is_median(pair_keys(pairs), 0),
        !no_median(pair_keys(pairs)),
{
    let keys = pair_keys(pairs);
    lemma_pairs_space_bytes(pairs);
    lemma_key_bytes_between(keys, 0, pairs.len() as int);
    assert(key_bytes(keys, 0) == 0);
    lemma_median_within(keys);
}

/// An internal node that one more key and child have filled has a place to
/// be cut in two, which is not before its first key.
pub proof fn lemma_full_internal_median(keys: Seq<Key>)
    requires
        keys_sized(keys),
        INTERNAL_HEADER_SIZE + keys_space(keys) + PTR_SIZE * (keys.len() + 1) + 1 >= PAGE_SIZE,
    ensures
        !is_median(keys, 0),
        !no_median(keys),
{
    lemma_keys_space_bytes(keys);
    lemma_key_bytes_between(keys, 0, keys.len() as int);
    assert(key_bytes(keys, 0) == 0);
    lemma_median_within(keys);
}

/// Pairs followed by pairs take the space of both.
pub proof fn lemma_pairs_space_concat(a: Seq<(Key, u64)>, b: Seq<(Key, u64)>)
    ensures
        pairs_space(a + b) == pairs_space(a) + pairs_space(b),
{
    let all = a + b;
    lemma_pairs_space_part(all, 0, a.len() as int);
    lemma_pairs_space_part(all, a.len() as int, all.len() as int);
    lemma_pairs_space_bytes(all);
    assert(all.subrange(0, a.len() as int) =~= a);
    assert(all.subrange(a.len() as int, all.len() as int) =~= b);
    assert(key_bytes(pair_keys(all), 0) == 0);
}

/// Keys followed by keys take the space of both.
pub proof fn lemma_keys_space_concat(a: Seq<Key>, b: Seq<Key>)
    ensures
        keys_space(a + b) == keys_space(a) + keys_space(b),
{
    let all = a + b;
    lemma_keys_space_part(all, 0, a.len() as int);
    lemma_keys_space_part(all, a.len() as int, all.len() as int);
    lemma_keys_space_bytes(all);
    assert(all.subrange(0, a.len() as int) =~= a);
    assert(all.subrange(a.len() as int, all.len() as int) =~= b);
    assert(key_bytes(all, 0) == 0);
}

/// Keys joined with a separator between them take the space of both and
/// of the separator.
pub proof fn lemma_joined_space(a: Seq<Key>, separator: Key, b: Seq<Key>)
    ensures
        keys_space(a + seq![separator] + b) == keys_space(a) + 1 + separator.len() + keys_space(b),
        (a + seq![separator] + b).len() == a.len() + 1 + b.len(),
{
    lemma_keys_space_concat(a + seq![separator], b);
    lemma_keys_space_concat(a, seq![separator]);
    assert(seq![separator].drop_last() =~= Seq::<Key>::empty());
    assert(keys_space(seq![separator]) == 1 + separator.len()) by {
        assert(keys_space(seq![separator].drop_last()) == 0);
    }
}

} // verus!
