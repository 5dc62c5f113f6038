//! Cutting the entries of a node in two by the bytes of their keys.

use crate::error::Error;
use crate::key::{Key, key_of};
use crate::node::{keys_view, KeyValuePair, pairs_view};
use crate::page_layout::KEY_MAX_SIZE;
use vstd::prelude::*;

verus! {

/// The number of bytes in the first `n` of `keys` together.
pub open spec fn key_bytes(keys: Seq<Key>, n: int) -> int
    decreases n,
{
    if n <= 0 {
        0
    } else {
        key_bytes(keys, n - 1) + keys[n - 1].len()
    }
}

/// Whether `i` is where `keys` are cut in two: the first index at which the
/// bytes of the keys up to and with it are more than half of the bytes of
/// all keys, and one.
pub open spec fn is_median(keys: Seq<Key>, i: int) -> bool {
    &&& 0 <= i < keys.len()
    &&& key_bytes(keys, i + 1) > key_bytes(keys, keys.len() as int) / 2 + 1
    &&& forall|j: int|
        0 <= j < i ==> #[trigger] key_bytes(keys, j + 1) <= key_bytes(keys, keys.len() as int) / 2
            + 1
}

/// Whether `keys` have no such index.
pub open spec fn no_median(keys: Seq<Key>) -> bool {
    forall|j: int|
        0 <= j < keys.len() ==> #[trigger] key_bytes(keys, j + 1) <= key_bytes(
            keys,
            keys.len() as int,
        ) / 2 + 1
}

/// The number of bytes in keys grows with their number.
pub proof fn lemma_key_bytes_mono(keys: Seq<Key>, a: int, b: int)
    requires
        0 <= a <= b,
    ensures
        0 <= key_bytes(keys, a) <= key_bytes(keys, b),
    decreases b,
{
    if a < b {
        lemma_key_bytes_mono(keys, a, b - 1);
    } else if a > 0 {
        lemma_key_bytes_mono(keys, a - 1, a - 1);
    }
}

/// The index at which to cut `keys` in two by their bytes: the first index
/// at which the keys up to and with it hold more than half of all bytes,
/// and one. Zero where there is no such index.
#[verifier::rlimit(60)]
pub fn find_median_key_idx(keys: &Vec<String>) -> (idx: usize)
    requires
        key_bytes(keys_view(keys@), keys@.len() as int) <= usize::MAX,
    ensures
        is_median(keys_view(keys@), idx as int) || (idx == 0 && no_median(keys_view(keys@))),
        idx == 0 || idx < keys@.len(),
{
    let ghost all = keys_view(keys@);
    let mut total: usize = 0;
    let mut i: usize = 0;
    while i < keys.len()
        invariant
            i <= keys.len(),
            all == keys_view(keys@),
            total == key_bytes(all, i as int),
            key_bytes(all, keys@.len() as int) <= usize::MAX,
        decreases keys.len() - i,
    {
        proof {
            lemma_key_bytes_mono(all, i + 1, keys@.len() as int);
            assert(all[i as int] == key_of(keys@[i as int]@));
        }
        total = total + keys[i].as_str().len();
        i = i + 1;
    }
    let half = total / 2 + 1;
    let mut sum: usize = 0;
    let mut idx: usize = 0;
    while idx < keys.len()
        invariant
            idx <= keys.len(),
            all == keys_view(keys@),
            total == key_bytes(all, keys@.len() as int),
            half == total / 2 + 1,
            sum == key_bytes(all, idx as int),
            forall|j: int| 0 <= j < idx ==> #[trigger] key_bytes(all, j + 1) <= half,
        decreases keys.len() - idx,
    {
        proof {
            lemma_key_bytes_mono(all, idx + 1, keys@.len() as int);
            assert(all[idx as int] == key_of(keys@[idx as int]@));
        }
        sum = sum + keys[idx].as_str().len();
        if sum > half {
            return idx;
        }
        idx = idx + 1;
    }
    0
}

/// Cuts the pairs in two by the bytes of their keys. The pairs before the
/// cut stay in `key_value_pairs`; the pairs from the cut on are given back,
/// with the key of the first of them, which is to part the two halves.
/// Fails with `ImpossibleSplit`, and changes nothing, where the cut would
/// leave the first half empty.
#[verifier::rlimit(60)]
pub fn split_key_value_pairs(key_value_pairs: &mut Vec<KeyValuePair>) -> (r: Result<
    (String, Vec<KeyValuePair>),
    Error,
>)
    requires
        key_bytes(pair_keys(pairs_view(old(key_value_pairs)@)), old(key_value_pairs)@.len() as int)
            <= usize::MAX,
    ensures
        match r {
            Ok((median_key, sibling_pairs)) => exists|m: int|
                {
                    &&& 1 <= m < old(key_value_pairs)@.len()
                    &&& #[trigger] is_median(pair_keys(pairs_view(old(key_value_pairs)@)), m)
                    &&& final(key_value_pairs)@ == old(key_value_pairs)@.subrange(0, m)
                    &&& sibling_pairs@ == old(key_value_pairs)@.subrange(
                        m,
                        old(key_value_pairs)@.len() as int,
                    )
                    &&& median_key == old(key_value_pairs)@[m].key
                },
            Err(e) => {
                &&& e is ImpossibleSplit
                &&& final(key_value_pairs)@ == old(key_value_pairs)@
                &&& is_median(pair_keys(pairs_view(old(key_value_pairs)@)), 0) || no_median(
                    pair_keys(pairs_view(old(key_value_pairs)@)),
                )
            },
        },
{
    let ghost all = pair_keys(pairs_view(key_value_pairs@));
    let mut total: usize = 0;
    let mut i: usize = 0;
    while i < key_value_pairs.len()
        invariant
            i <= key_value_pairs.len(),
            all == pair_keys(pairs_view(key_value_pairs@)),
            total == key_bytes(all, i as int),
            key_bytes(all, key_value_pairs@.len() as int) <= usize::MAX,
        decreases key_value_pairs.len() - i,
    {
        proof {
            lemma_key_bytes_mono(all, i + 1, key_value_pairs@.len() as int);
            assert(all[i as int] == key_of(key_value_pairs@[i as int].key@));
        }
        total = total + key_value_pairs[i].key.as_str().len();
        i = i + 1;
    }
    let half = total / 2 + 1;
    let mut sum: usize = 0;
    let mut median_idx: usize = 0;
    let mut idx: usize = 0;
    while idx < key_value_pairs.len()
        invariant_except_break
            sum == key_bytes(all, idx as int),
            median_idx == 0,
        invariant
            idx <= key_value_pairs.len(),
            all == pair_keys(pairs_view(key_value_pairs@)),
            total == key_bytes(all, key_value_pairs@.len() as int),
            half == total / 2 + 1,
            forall|j: int| 0 <= j < idx ==> #[trigger] key_bytes(all, j + 1) <= half,
        ensures
            median_idx == 0 ==> is_median(all, 0) || no_median(all),
            median_idx != 0 ==> is_median(all, median_idx as int),
        decreases key_value_pairs.len() - idx,
    {
        proof {
            lemma_key_bytes_mono(all, idx + 1, key_value_pairs@.len() as int);
            assert(all[idx as int] == key_of(key_value_pairs@[idx as int].key@));
        }
        sum = sum + key_value_pairs[idx].key.as_str().len();
        if sum > half {
            median_idx = idx;
            break ;
        }
        idx = idx + 1;
    }
    if median_idx == 0 {
        return Err(Error::ImpossibleSplit);
    }
    let sibling_pairs = key_value_pairs.split_off(median_idx);
    let median_key = sibling_pairs[0].key.clone();
    Ok((median_key, sibling_pairs))
}

/// The keys of `pairs`.
pub open spec fn pair_keys(pairs: Seq<(Key, u64)>) -> Seq<Key> {
    Seq::new(pairs.len(), |i: int| pairs[i].0)
}

/// Keys of at most 255 bytes each have at most 255 bytes for each of them
/// together.
pub proof fn lemma_key_bytes_bound(keys: Seq<Key>, n: int)
    requires
        0 <= n <= keys.len(),
        forall|i: int| 0 <= i < keys.len() ==> (#[trigger] keys[i]).len() <= KEY_MAX_SIZE,
    ensures
        key_bytes(keys, n) <= 255 * n,
    decreases n,
{
    if n > 0 {
        lemma_key_bytes_bound(keys, n - 1);
    }
}

} // verus!
