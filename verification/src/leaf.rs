//! The pairs of a leaf.

use crate::key::{Key, key_le, key_lt, lemma_key_le_lt};
use crate::node::{key_storable, lemma_decode_storable, storable};
use crate::page_layout::PAGE_SIZE;
use crate::pager::{Disk, page_at};
use crate::tree::{
    above, at_or_above, below, in_subtree, lemma_pairs_concat, lemma_pairs_remove,
    lemma_pairs_subrange, lookup, node_at, pairs_get, pairs_sorted, space_at, subtree,
};
use vstd::prelude::*;

verus! {

/// Whether `pairs` can be the pairs of a leaf within the bounds `lo` and
/// `hi`: they are in order, within the bounds, and each key can be stored.
pub open spec fn leaf_ok(pairs: Seq<(Key, u64)>, lo: Option<Key>, hi: Option<Key>) -> bool {
    &&& pairs_sorted(pairs)
    &&& forall|i: int|
        0 <= i < pairs.len() ==> key_storable((#[trigger] pairs[i]).0) && at_or_above(
            lo,
            pairs[i].0,
        ) && below(pairs[i].0, hi)
}

/// Putting a pair into the pairs of a leaf, where it keeps the order, gives
/// the pairs of a leaf.
pub proof fn lemma_leaf_ok_insert(
    pairs: Seq<(Key, u64)>,
    idx: int,
    kv: (Key, u64),
    lo: Option<Key>,
    hi: Option<Key>,
)
    requires
        leaf_ok(pairs, lo, hi),
        0 <= idx <= pairs.len(),
        pairs_sorted(pairs.insert(idx, kv)),
        key_storable(kv.0),
        at_or_above(lo, kv.0),
        below(kv.0, hi),
    ensures
        leaf_ok(pairs.insert(idx, kv), lo, hi),
{
    let more = pairs.insert(idx, kv);
    assert forall|i: int| 0 <= i < more.len() implies key_storable((#[trigger] more[i]).0)
        && at_or_above(lo, more[i].0) && below(more[i].0, hi) by {
        if i < idx {
            assert(more[i] == pairs[i]);
        } else if i > idx {
            assert(more[i] == pairs[i - 1]);
        }
    }
}

/// Cutting the pairs of a leaf at `m` gives the pairs of two leaves that
/// the key at `m` parts, and each key has the value that its side gives it.
#[verifier::rlimit(60)]
pub proof fn lemma_leaf_ok_split(pairs: Seq<(Key, u64)>, m: int, lo: Option<Key>, hi: Option<Key>)
    requires
        leaf_ok(pairs, lo, hi),
        1 <= m < pairs.len(),
    ensures
        leaf_ok(pairs.subrange(0, m), lo, Some(pairs[m].0)),
        leaf_ok(pairs.subrange(m, pairs.len() as int), Some(pairs[m].0), hi),
        key_storable(pairs[m].0),
        above(lo, pairs[m].0),
        below(pairs[m].0, hi),
        forall|k: Key| #[trigger]
            pairs_get(pairs, k) == if key_lt(k, pairs[m].0) {
                pairs_get(pairs.subrange(0, m), k)
            } else {
                pairs_get(pairs.subrange(m, pairs.len() as int), k)
            },
{
    let left = pairs.subrange(0, m);
    let right = pairs.subrange(m, pairs.len() as int);
    let sep = pairs[m].0;
    lemma_pairs_subrange(pairs, 0, m);
    lemma_pairs_subrange(pairs, m, pairs.len() as int);
    assert forall|i: int| 0 <= i < left.len() implies key_storable((#[trigger] left[i]).0)
        && at_or_above(lo, left[i].0) && below(left[i].0, Some(sep)) && key_lt(left[i].0, sep) by {
        assert(left[i] == pairs[i]);
        assert(key_lt(pairs[i].0, pairs[m].0));
    }
    assert forall|i: int| 0 <= i < right.len() implies key_storable((#[trigger] right[i]).0)
        && at_or_above(Some(sep), right[i].0) && below(right[i].0, hi) && key_le(
        sep,
        right[i].0,
    ) by {
        assert(right[i] == pairs[m + i]);
        if i > 0 {
            assert(key_lt(pairs[m].0, pairs[m + i].0));
        }
    }
    assert(pairs =~= left + right);
    lemma_pairs_concat(left, right, sep);
    assert(left[0] == pairs[0]);
    if lo is Some {
        lemma_key_le_lt(lo->Some_0, pairs[0].0, sep);
    }
}

/// A leaf is a sound tree of height zero, has one page, and gives each key
/// what its pairs give it.
pub proof fn lemma_leaf_subtree(disk: Disk, n: int, lo: Option<Key>, hi: Option<Key>)
    requires
        node_at(disk, n) is Some,
        node_at(disk, n)->Some_0.kind is Leaf,
        space_at(disk, n) <= PAGE_SIZE,
        leaf_ok(node_at(disk, n)->Some_0.kind->Leaf_pairs, lo, hi),
    ensures
        subtree(disk, n, 0, lo, hi),
        forall|p: int| #[trigger] in_subtree(disk, n, 0, p) <==> p == n,
        forall|k: Key| #[trigger]
            lookup(disk, n, 0, k) == pairs_get(node_at(disk, n)->Some_0.kind->Leaf_pairs, k),
{
}

/// The pairs of a leaf of a sound tree are the pairs of a leaf.
pub proof fn lemma_subtree_leaf(disk: Disk, o: int, lo: Option<Key>, hi: Option<Key>)
    requires
        subtree(disk, o, 0, lo, hi),
    ensures
        node_at(disk, o) is Some,
        node_at(disk, o)->Some_0.kind is Leaf,
        storable(node_at(disk, o)->Some_0),
        leaf_ok(node_at(disk, o)->Some_0.kind->Leaf_pairs, lo, hi),
        node_at(disk, o)->Some_0.kind->Leaf_pairs.len() <= PAGE_SIZE,
        forall|k: Key| #[trigger]
            lookup(disk, o, 0, k) == pairs_get(node_at(disk, o)->Some_0.kind->Leaf_pairs, k),
{
    lemma_decode_storable(page_at(disk, o));
}

/// Taking a pair out of the pairs of a leaf gives the pairs of a leaf.
pub proof fn lemma_leaf_ok_remove(
    pairs: Seq<(Key, u64)>,
    idx: int,
    lo: Option<Key>,
    hi: Option<Key>,
)
    requires
        leaf_ok(pairs, lo, hi),
        0 <= idx < pairs.len(),
    ensures
        leaf_ok(pairs.remove(idx), lo, hi),
{
    let less = pairs.remove(idx);
    lemma_pairs_remove(pairs, idx);
    assert forall|i: int| 0 <= i < less.len() implies key_storable((#[trigger] less[i]).0)
        && at_or_above(lo, less[i].0) && below(less[i].0, hi) by {
        if i < idx {
            assert(less[i] == pairs[i]);
        } else {
            assert(less[i] == pairs[i + 1]);
        }
    }
}

} // verus!
