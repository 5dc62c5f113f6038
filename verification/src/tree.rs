//! The tree as mathematics: what it means that a sound tree is stored at
//! an offset, which pages belong to it, which value it gives to a key, and
//! what stays true of it while pages are taken and nodes are written.

use crate::key::{
    Key, key_le, key_lt, keys_sorted, lemma_key_le_lt, lemma_key_lt_irreflexive,
    lemma_key_lt_transitive, lemma_key_not_lt, lemma_key_trichotomy,
};
use crate::node::{decode, key_storable, KindView, NodeView, storable};
use crate::page_layout::PAGE_SIZE;
use crate::pager::{
    Disk, is_page, lemma_chain_props, lemma_page_index_distinct, Offset, page_at, Pager, took_page,
};
use vstd::prelude::*;

verus! {

/// The node stored at the offset `o`, if a page starts there and holds one.
pub open spec fn node_at(disk: Disk, o: int) -> Option<NodeView> {
    if is_page(disk, o) && decode(page_at(disk, o)) is Ok {
        Some(decode(page_at(disk, o))->Ok_0.0)
    } else {
        None
    }
}

/// The space that the node stored at `o` occupies: the bytes up to the end
/// of its last entry, and one.
pub open spec fn space_at(disk: Disk, o: int) -> int {
    decode(page_at(disk, o))->Ok_0.1 + 1
}

/// Whether `k` is at or after the lower bound `lo`; no bound admits all.
pub open spec fn at_or_above(lo: Option<Key>, k: Key) -> bool {
    lo is None || key_le(lo->Some_0, k)
}

/// Whether `k` is after the lower bound `lo`; no bound admits all.
pub open spec fn above(lo: Option<Key>, k: Key) -> bool {
    lo is None || key_lt(lo->Some_0, k)
}

/// Whether `k` is before the upper bound `hi`; no bound admits all.
pub open spec fn below(k: Key, hi: Option<Key>) -> bool {
    hi is None || key_lt(k, hi->Some_0)
}

/// The lower bound of the child `i` of a node with the separators `keys`
/// and the lower bound `lo`.
pub open spec fn child_lo(keys: Seq<Key>, lo: Option<Key>, i: int) -> Option<Key> {
    if i == 0 {
        lo
    } else {
        Some(keys[i - 1])
    }
}

/// The upper bound of the child `i` of a node with the separators `keys`
/// and the upper bound `hi`.
pub open spec fn child_hi(keys: Seq<Key>, hi: Option<Key>, i: int) -> Option<Key> {
    if i == keys.len() {
        hi
    } else {
        Some(keys[i])
    }
}

/// Whether the keys of `pairs` are in ascending order, none twice.
pub open spec fn pairs_sorted(pairs: Seq<(Key, u64)>) -> bool {
    forall|i: int, j: int|
        0 <= i < j < pairs.len() ==> key_lt((#[trigger] pairs[i]).0, (#[trigger] pairs[j]).0)
}

/// The child that the separators `keys` select for `k`: the index of the
/// first separator after `k`, or their number where there is none.
pub open spec fn route(keys: Seq<Key>, k: Key) -> int
    decreases keys.len(),
{
    if keys.len() == 0 || key_lt(k, keys[0]) {
        0
    } else {
        1 + route(keys.drop_first(), k)
    }
}

/// The value that `pairs` gives to `k`, if any.
pub open spec fn pairs_get(pairs: Seq<(Key, u64)>, k: Key) -> Option<u64> {
    if exists|i: int| 0 <= i < pairs.len() && (#[trigger] pairs[i]).0 == k {
        Some(pairs[choose|i: int| 0 <= i < pairs.len() && (#[trigger] pairs[i]).0 == k].1)
    } else {
        None
    }
}

/// Whether the page at `p` belongs to the tree of height `h` whose root is
/// stored at `o`: it is the root, or belongs to the tree of a child.
pub open spec fn in_subtree(disk: Disk, o: int, h: nat, p: int) -> bool
    decreases h,
{
    p == o || (h > 0 && match node_at(disk, o) {
        Some(node) => match node.kind {
            KindView::Internal { keys, children } => exists|i: int|
                0 <= i < children.len() && in_subtree(
                    disk,
                    #[trigger] children[i] as int,
                    (h - 1) as nat,
                    p,
                ),
            KindView::Leaf { .. } => false,
        },
        None => false,
    })
}

/// The pages of the tree of height `h` whose root is stored at `o`.
pub open spec fn pages(disk: Disk, o: int, h: nat) -> Set<int> {
    Set::new(|p: int| in_subtree(disk, o, h, p))
}

/// Whether a sound tree of height `h` is stored at `o`, all of whose keys
/// lie at or after `lo` and before `hi`. Its leaves are all `h` steps below
/// the root. In a leaf the keys are in ascending order. In an internal node
/// the separators are in ascending order, lie after `lo` and before `hi`,
/// and bound the keys of the children: what lies under the child `i` is at
/// or after the separator `i - 1` and before the separator `i`. No page
/// belongs to the tree twice, and no node occupies more than a page.
pub open spec fn subtree(disk: Disk, o: int, h: nat, lo: Option<Key>, hi: Option<Key>) -> bool
    decreases h,
{
    match node_at(disk, o) {
        None => false,
        Some(node) => match node.kind {
            KindView::Leaf { next, previous, pairs } => {
                &&& h == 0
                &&& space_at(disk, o) <= PAGE_SIZE
                &&& pairs_sorted(pairs)
                &&& forall|i: int|
                    0 <= i < pairs.len() ==> at_or_above(lo, (#[trigger] pairs[i]).0) && below(
                        pairs[i].0,
                        hi,
                    )
            },
            KindView::Internal { keys, children } => {
                &&& h > 0
                &&& space_at(disk, o) <= PAGE_SIZE
                &&& children.len() == keys.len() + 1
                &&& keys_sorted(keys)
                &&& forall|i: int|
                    0 <= i < keys.len() ==> above(lo, #[trigger] keys[i]) && below(keys[i], hi)
                &&& forall|i: int|
                    0 <= i < children.len() ==> subtree(
                        disk,
                        #[trigger] children[i] as int,
                        (h - 1) as nat,
                        child_lo(keys, lo, i),
                        child_hi(keys, hi, i),
                    )
                &&& forall|i: int|
                    0 <= i < children.len() ==> !in_subtree(
                        disk,
                        #[trigger] children[i] as int,
                        (h - 1) as nat,
                        o,
                    )
                &&& forall|i: int, j: int|
                    0 <= i < j < children.len() ==> pages(
                        disk,
                        #[trigger] children[i] as int,
                        (h - 1) as nat,
                    ).disjoint(pages(disk, #[trigger] children[j] as int, (h - 1) as nat))
            },
        },
    }
}

/// The value that the tree of height `h` stored at `o` gives to `k`, if
/// any: what the leaf gives that the separators lead to.
pub open spec fn lookup(disk: Disk, o: int, h: nat, k: Key) -> Option<u64>
    decreases h,
{
    match node_at(disk, o) {
        None => None,
        Some(node) => match node.kind {
            KindView::Leaf { next, previous, pairs } => pairs_get(pairs, k),
            KindView::Internal { keys, children } => if h == 0 || children.len() != keys.len()
                + 1 {
                None
            } else {
                lookup(disk, children[route(keys, k)] as int, (h - 1) as nat, k)
            },
        },
    }
}

/// The child that `route` selects exists.
pub proof fn lemma_route_range(keys: Seq<Key>, k: Key)
    ensures
        0 <= route(keys, k) <= keys.len(),
    decreases keys.len(),
{
    if keys.len() > 0 {
        lemma_route_range(keys.drop_first(), k);
    }
}

/// Among separators in ascending order, `route` gives the one index before
/// which every separator is at or before `k` and at which the separator, if
/// there is one, is after `k`.
pub proof fn lemma_route_is(keys: Seq<Key>, k: Key, i: int)
    requires
        0 <= i <= keys.len(),
        forall|j: int| 0 <= j < i ==> !key_lt(k, #[trigger] keys[j]),
        i < keys.len() ==> key_lt(k, keys[i]),
    ensures
        route(keys, k) == i,
    decreases keys.len(),
{
    if keys.len() > 0 && i > 0 {
        assert(!key_lt(k, keys[0]));
        let rest = keys.drop_first();
        assert forall|j: int| 0 <= j < i - 1 implies !key_lt(k, #[trigger] rest[j]) by {
            assert(rest[j] == keys[j + 1]);
        }
        lemma_route_is(rest, k, i - 1);
    }
}

/// The key `k` lies within the bounds of the child that `route` selects
/// for it, where it lies within the bounds of the node.
#[verifier::rlimit(60)]
pub proof fn lemma_route_bounds(keys: Seq<Key>, k: Key, lo: Option<Key>, hi: Option<Key>)
    requires
        keys_sorted(keys),
        at_or_above(lo, k),
        below(k, hi),
    ensures
        at_or_above(child_lo(keys, lo, route(keys, k)), k),
        below(k, child_hi(keys, hi, route(keys, k))),
        forall|j: int| 0 <= j < route(keys, k) ==> key_le(#[trigger] keys[j], k),
    decreases keys.len(),
{
    lemma_route_range(keys, k);
    if keys.len() > 0 && !key_lt(k, keys[0]) {
        let rest = keys.drop_first();
        lemma_key_not_lt(k, keys[0]);
        assert(keys_sorted(rest)) by {
            assert forall|i: int, j: int| 0 <= i < j < rest.len() implies key_lt(
                #[trigger] rest[i],
                #[trigger] rest[j],
            ) by {
                assert(rest[i] == keys[i + 1] && rest[j] == keys[j + 1]);
            }
        }
        lemma_route_bounds(rest, k, Some(keys[0]), hi);
        let r = route(rest, k);
        lemma_route_range(rest, k);
        assert(route(keys, k) == r + 1);
        if r > 0 {
            assert(rest[r - 1] == keys[r]);
        }
        if r < rest.len() {
            assert(rest[r] == keys[r + 1]);
        }
        assert forall|j: int| 0 <= j < r + 1 implies key_le(#[trigger] keys[j], k) by {
            if j > 0 {
                assert(rest[j - 1] == keys[j]);
            }
        }
    }
}

/// Every page of a sound tree is a page of the storage.
pub proof fn lemma_subtree_pages(disk: Disk, o: int, h: nat, lo: Option<Key>, hi: Option<Key>, p: int)
    requires
        subtree(disk, o, h, lo, hi),
        in_subtree(disk, o, h, p),
    ensures
        is_page(disk, p),
    decreases h,
{
    if p != o {
        let node = node_at(disk, o)->Some_0;
        match node.kind {
            KindView::Internal { keys, children } => {
                let i = choose|i: int|
                    0 <= i < children.len() && in_subtree(
                        disk,
                        #[trigger] children[i] as int,
                        (h - 1) as nat,
                        p,
                    );
                lemma_subtree_pages(
                    disk,
                    children[i] as int,
                    (h - 1) as nat,
                    child_lo(keys, lo, i),
                    child_hi(keys, hi, i),
                    p,
                );
            },
            KindView::Leaf { .. } => {},
        }
    }
}

/// A sound tree is the same tree, with the same pages and the same values,
/// in a storage that holds the same bytes in each of its pages.
#[verifier::rlimit(60)]
pub proof fn lemma_subtree_frame(
    d1: Disk,
    d2: Disk,
    o: int,
    h: nat,
    lo: Option<Key>,
    hi: Option<Key>,
)
    requires
        subtree(d1, o, h, lo, hi),
        forall|p: int| #[trigger]
            in_subtree(d1, o, h, p) ==> is_page(d2, p) && page_at(d2, p) == page_at(d1, p),
    ensures
        subtree(d2, o, h, lo, hi),
        pages(d2, o, h) == pages(d1, o, h),
        forall|p: int| #[trigger] in_subtree(d2, o, h, p) <==> in_subtree(d1, o, h, p),
        forall|k: Key| #[trigger] lookup(d2, o, h, k) == lookup(d1, o, h, k),
    decreases h,
{
    assert(in_subtree(d1, o, h, o));
    assert(page_at(d2, o) == page_at(d1, o));
    assert(node_at(d2, o) == node_at(d1, o));
    let node = node_at(d1, o)->Some_0;
    match node.kind {
        KindView::Internal { keys, children } => {
            let hc = (h - 1) as nat;
            assert forall|i: int| 0 <= i < children.len() implies {
                &&& subtree(
                    d2,
                    #[trigger] children[i] as int,
                    hc,
                    child_lo(keys, lo, i),
                    child_hi(keys, hi, i),
                )
                &&& pages(d2, children[i] as int, hc) == pages(d1, children[i] as int, hc)
                &&& forall|p: int| #[trigger]
                    in_subtree(d2, children[i] as int, hc, p) <==> in_subtree(
                        d1,
                        children[i] as int,
                        hc,
                        p,
                    )
                &&& forall|k: Key| #[trigger]
                    lookup(d2, children[i] as int, hc, k) == lookup(d1, children[i] as int, hc, k)
            } by {
                assert forall|p: int| #[trigger]
                    in_subtree(d1, children[i] as int, hc, p) implies is_page(d2, p) && page_at(
                    d2,
                    p,
                ) == page_at(d1, p) by {
                    assert(in_subtree(d1, o, h, p));
                }
                lemma_subtree_frame(
                    d1,
                    d2,
                    children[i] as int,
                    hc,
                    child_lo(keys, lo, i),
                    child_hi(keys, hi, i),
                );
            }
            assert forall|k: Key| #[trigger] lookup(d2, o, h, k) == lookup(d1, o, h, k) by {
                lemma_route_range(keys, k);
                let i = route(keys, k);
                assert(lookup(d2, children[i] as int, hc, k) == lookup(
                    d1,
                    children[i] as int,
                    hc,
                    k,
                ));
            }
            assert forall|p: int| #[trigger] in_subtree(d2, o, h, p) <==> in_subtree(
                d1,
                o,
                h,
                p,
            ) by {
                if in_subtree(d1, o, h, p) && p != o {
                    let i = choose|i: int|
                        0 <= i < children.len() && in_subtree(
                            d1,
                            #[trigger] children[i] as int,
                            hc,
                            p,
                        );
                    assert(in_subtree(d2, children[i] as int, hc, p));
                }
                if in_subtree(d2, o, h, p) && p != o {
                    let i = choose|i: int|
                        0 <= i < children.len() && in_subtree(
                            d2,
                            #[trigger] children[i] as int,
                            hc,
                            p,
                        );
                    assert(in_subtree(d1, children[i] as int, hc, p));
                }
            }
            assert(pages(d2, o, h) =~= pages(d1, o, h));
        },
        KindView::Leaf { .. } => {
            assert(pages(d2, o, h) =~= pages(d1, o, h));
        },
    }
}

/// Among pairs in ascending order, the value found for the key of the pair
/// `i` is the value of that pair.
pub proof fn lemma_pairs_get_at(pairs: Seq<(Key, u64)>, i: int)
    requires
        pairs_sorted(pairs),
        0 <= i < pairs.len(),
    ensures
        pairs_get(pairs, pairs[i].0) == Some(pairs[i].1),
{
    let k = pairs[i].0;
    let j = choose|j: int| 0 <= j < pairs.len() && (#[trigger] pairs[j]).0 == k;
    lemma_key_lt_irreflexive(k);
    if j < i {
        assert(key_lt(pairs[j].0, pairs[i].0));
    } else if i < j {
        assert(key_lt(pairs[i].0, pairs[j].0));
    }
}

/// Putting a pair where it keeps the order keeps the order, gives its key
/// its value, and leaves every other key what it had.
#[verifier::rlimit(60)]
pub proof fn lemma_pairs_insert(pairs: Seq<(Key, u64)>, idx: int, kv: (Key, u64))
    requires
        pairs_sorted(pairs),
        0 <= idx <= pairs.len(),
        forall|j: int| 0 <= j < idx ==> key_lt((#[trigger] pairs[j]).0, kv.0),
        forall|j: int| idx <= j < pairs.len() ==> key_lt(kv.0, (#[trigger] pairs[j]).0),
    ensures
        pairs_sorted(pairs.insert(idx, kv)),
        forall|k: Key| #[trigger]
            pairs_get(pairs.insert(idx, kv), k) == if k == kv.0 {
                Some(kv.1)
            } else {
                pairs_get(pairs, k)
            },
{
    let more = pairs.insert(idx, kv);
    assert(pairs_sorted(more)) by {
        assert forall|i: int, j: int| 0 <= i < j < more.len() implies key_lt(
            (#[trigger] more[i]).0,
            (#[trigger] more[j]).0,
        ) by {
            let a = if i < idx {
                i
            } else {
                i - 1
            };
            let b = if j < idx {
                j
            } else {
                j - 1
            };
            if i != idx && j != idx {
                assert(more[i] == pairs[a] && more[j] == pairs[b]);
            } else if i == idx {
                assert(more[j] == pairs[b]);
            } else {
                assert(more[i] == pairs[a]);
            }
        }
    }
    assert forall|k: Key| #[trigger]
        pairs_get(more, k) == if k == kv.0 {
            Some(kv.1)
        } else {
            pairs_get(pairs, k)
        } by {
        if k == kv.0 {
            assert(more[idx] == kv);
            lemma_pairs_get_at(more, idx);
        } else if exists|i: int| 0 <= i < pairs.len() && (#[trigger] pairs[i]).0 == k {
            let i = choose|i: int| 0 <= i < pairs.len() && (#[trigger] pairs[i]).0 == k;
            lemma_pairs_get_at(pairs, i);
            let i2 = if i < idx {
                i
            } else {
                i + 1
            };
            assert(more[i2] == pairs[i]);
            lemma_pairs_get_at(more, i2);
        } else {
            assert forall|i: int| 0 <= i < more.len() implies (#[trigger] more[i]).0 != k by {
                if i < idx {
                    assert(more[i] == pairs[i]);
                } else if i > idx {
                    assert(more[i] == pairs[i - 1]);
                }
            }
        }
    }
}

/// Taking a pair out keeps the order, leaves its key without a value, and
/// leaves every other key what it had.
#[verifier::rlimit(60)]
pub proof fn lemma_pairs_remove(pairs: Seq<(Key, u64)>, idx: int)
    requires
        pairs_sorted(pairs),
        0 <= idx < pairs.len(),
    ensures
        pairs_sorted(pairs.remove(idx)),
        forall|k: Key| #[trigger]
            pairs_get(pairs.remove(idx), k) == if k == pairs[idx].0 {
                None
            } else {
                pairs_get(pairs, k)
            },
{
    let less = pairs.remove(idx);
    assert(pairs_sorted(less)) by {
        assert forall|i: int, j: int| 0 <= i < j < less.len() implies key_lt(
            (#[trigger] less[i]).0,
            (#[trigger] less[j]).0,
        ) by {
            let a = if i < idx {
                i
            } else {
                i + 1
            };
            let b = if j < idx {
                j
            } else {
                j + 1
            };
            assert(less[i] == pairs[a] && less[j] == pairs[b]);
        }
    }
    assert forall|k: Key| #[trigger]
        pairs_get(less, k) == if k == pairs[idx].0 {
            None
        } else {
            pairs_get(pairs, k)
        } by {
        if k == pairs[idx].0 {
            assert forall|i: int| 0 <= i < less.len() implies (#[trigger] less[i]).0 != k by {
                let a = if i < idx {
                    i
                } else {
                    i + 1
                };
                assert(less[i] == pairs[a]);
                lemma_key_lt_irreflexive(k);
                if a < idx {
                    assert(key_lt(pairs[a].0, pairs[idx].0));
                } else {
                    assert(key_lt(pairs[idx].0, pairs[a].0));
                }
            }
        } else if exists|i: int| 0 <= i < pairs.len() && (#[trigger] pairs[i]).0 == k {
            let i = choose|i: int| 0 <= i < pairs.len() && (#[trigger] pairs[i]).0 == k;
            lemma_pairs_get_at(pairs, i);
            let i2 = if i < idx {
                i
            } else {
                i - 1
            };
            assert(less[i2] == pairs[i]);
            lemma_pairs_get_at(less, i2);
        } else {
            assert forall|i: int| 0 <= i < less.len() implies (#[trigger] less[i]).0 != k by {
                let a = if i < idx {
                    i
                } else {
                    i + 1
                };
                assert(less[i] == pairs[a]);
            }
        }
    }
}

/// Pairs in order before `sep`, followed by pairs in order at or after
/// `sep`, are in order, and give each key what its side gives it.
#[verifier::rlimit(60)]
pub proof fn lemma_pairs_concat(left: Seq<(Key, u64)>, right: Seq<(Key, u64)>, sep: Key)
    requires
        pairs_sorted(left),
        pairs_sorted(right),
        forall|i: int| 0 <= i < left.len() ==> key_lt((#[trigger] left[i]).0, sep),
        forall|i: int| 0 <= i < right.len() ==> key_le(sep, (#[trigger] right[i]).0),
    ensures
        pairs_sorted(left + right),
        forall|k: Key| #[trigger]
            pairs_get(left + right, k) == if key_lt(k, sep) {
                pairs_get(left, k)
            } else {
                pairs_get(right, k)
            },
{
    let all = left + right;
    assert(pairs_sorted(all)) by {
        assert forall|i: int, j: int| 0 <= i < j < all.len() implies key_lt(
            (#[trigger] all[i]).0,
            (#[trigger] all[j]).0,
        ) by {
            if j < left.len() {
                assert(all[i] == left[i] && all[j] == left[j]);
            } else if i >= left.len() {
                assert(all[i] == right[i - left.len()] && all[j] == right[j - left.len()]);
            } else {
                assert(all[i] == left[i] && all[j] == right[j - left.len()]);
                lemma_key_le_lt(left[i].0, sep, right[j - left.len()].0);
            }
        }
    }
    assert forall|k: Key| #[trigger]
        pairs_get(all, k) == if key_lt(k, sep) {
            pairs_get(left, k)
        } else {
            pairs_get(right, k)
        } by {
        lemma_key_trichotomy(k, sep);
        lemma_key_lt_irreflexive(k);
        if key_lt(k, sep) {
            if exists|i: int| 0 <= i < left.len() && (#[trigger] left[i]).0 == k {
                let i = choose|i: int| 0 <= i < left.len() && (#[trigger] left[i]).0 == k;
                lemma_pairs_get_at(left, i);
                assert(all[i] == left[i]);
                lemma_pairs_get_at(all, i);
            } else {
                assert forall|i: int| 0 <= i < all.len() implies (#[trigger] all[i]).0 != k by {
                    if i < left.len() {
                        assert(all[i] == left[i]);
                    } else {
                        assert(all[i] == right[i - left.len()]);
                        lemma_key_le_lt(k, sep, all[i].0);
                    }
                }
            }
        } else {
            if exists|i: int| 0 <= i < right.len() && (#[trigger] right[i]).0 == k {
                let i = choose|i: int| 0 <= i < right.len() && (#[trigger] right[i]).0 == k;
                lemma_pairs_get_at(right, i);
                assert(all[i + left.len()] == right[i]);
                lemma_pairs_get_at(all, i + left.len());
            } else {
                assert forall|i: int| 0 <= i < all.len() implies (#[trigger] all[i]).0 != k by {
                    if i < left.len() {
                        assert(all[i] == left[i]);
                    } else {
                        assert(all[i] == right[i - left.len()]);
                    }
                }
            }
        }
    }
}

/// The parts of pairs in order are in order.
pub proof fn lemma_pairs_subrange(pairs: Seq<(Key, u64)>, a: int, b: int)
    requires
        pairs_sorted(pairs),
        0 <= a <= b <= pairs.len(),
    ensures
        pairs_sorted(pairs.subrange(a, b)),
{
    let part = pairs.subrange(a, b);
    assert forall|i: int, j: int| 0 <= i < j < part.len() implies key_lt(
        (#[trigger] part[i]).0,
        (#[trigger] part[j]).0,
    ) by {
        assert(part[i] == pairs[a + i] && part[j] == pairs[a + j]);
    }
}

/// Before the index that `route` gives no separator is after `k`; the
/// separator at it, if there is one, is.
pub proof fn lemma_route_props(keys: Seq<Key>, k: Key)
    ensures
        0 <= route(keys, k) <= keys.len(),
        forall|j: int| 0 <= j < route(keys, k) ==> !key_lt(k, #[trigger] keys[j]),
        route(keys, k) < keys.len() ==> key_lt(k, keys[route(keys, k)]),
    decreases keys.len(),
{
    if keys.len() > 0 && !key_lt(k, keys[0]) {
        let rest = keys.drop_first();
        lemma_route_props(rest, k);
        assert forall|j: int| 0 <= j < route(keys, k) implies !key_lt(k, #[trigger] keys[j]) by {
            if j > 0 {
                assert(rest[j - 1] == keys[j]);
            }
        }
        if route(keys, k) < keys.len() {
            assert(rest[route(rest, k)] == keys[route(keys, k)]);
        }
    }
}

/// With a separator `m` put in at `idx`, where it keeps the order, `route`
/// gives what it gave before `idx`, one more after it, and at it `idx` or
/// the next as `k` is before `m` or not.
#[verifier::rlimit(60)]
pub proof fn lemma_route_insert(keys: Seq<Key>, idx: int, m: Key, k: Key)
    requires
        keys_sorted(keys),
        0 <= idx <= keys.len(),
        idx > 0 ==> key_lt(keys[idx - 1], m),
        idx < keys.len() ==> key_lt(m, keys[idx]),
    ensures
        keys_sorted(keys.insert(idx, m)),
        route(keys.insert(idx, m), k) == if route(keys, k) < idx {
            route(keys, k)
        } else if route(keys, k) > idx {
            route(keys, k) + 1
        } else if key_lt(k, m) {
            idx
        } else {
            idx + 1
        },
{
    let more = keys.insert(idx, m);
    let r = route(keys, k);
    lemma_route_props(keys, k);
    assert(keys_sorted(more)) by {
        assert forall|i: int, j: int| 0 <= i < j < more.len() implies key_lt(
            #[trigger] more[i],
            #[trigger] more[j],
        ) by {
            let a = if i < idx {
                i
            } else {
                i - 1
            };
            let b = if j < idx {
                j
            } else {
                j - 1
            };
            if i != idx && j != idx {
                assert(more[i] == keys[a] && more[j] == keys[b]);
            } else if i == idx {
                assert(more[j] == keys[b]);
                if b > idx {
                    assert(key_lt(keys[idx], keys[b]));
                    lemma_key_lt_transitive(m, keys[idx], keys[b]);
                }
            } else {
                assert(more[i] == keys[a]);
                if a < idx - 1 {
                    assert(key_lt(keys[a], keys[idx - 1]));
                    lemma_key_lt_transitive(keys[a], keys[idx - 1], m);
                }
            }
        }
    }
    let r2 = if r < idx {
        r
    } else if r > idx {
        r + 1
    } else if key_lt(k, m) {
        idx
    } else {
        idx + 1
    };
    assert forall|j: int| 0 <= j < r2 implies !key_lt(k, #[trigger] more[j]) by {
        if j < idx {
            assert(more[j] == keys[j]);
        } else if j > idx {
            assert(more[j] == keys[j - 1]);
        } else {
            if r > idx {
                assert(!key_lt(k, keys[idx]));
                lemma_key_trichotomy(k, keys[idx]);
                lemma_key_trichotomy(k, m);
                if key_lt(k, m) {
                    lemma_key_lt_transitive(k, m, keys[idx]);
                }
            }
        }
    }
    if r2 < more.len() {
        if r2 < idx {
            assert(more[r2] == keys[r2]);
        } else if r2 > idx {
            assert(more[r2] == keys[r2 - 1]);
        }
    }
    lemma_route_is(more, k, r2);
}

/// Among the separators `left`, then `sep`, then `right`, all in order,
/// `route` gives what it gives among `left` for a key before `sep`, and what
/// it gives among `right`, past `left` and `sep`, for any other key.
#[verifier::rlimit(60)]
pub proof fn lemma_route_concat(left: Seq<Key>, sep: Key, right: Seq<Key>, k: Key)
    requires
        keys_sorted(left + seq![sep] + right),
    ensures
        keys_sorted(left),
        keys_sorted(right),
        route(left + seq![sep] + right, k) == if key_lt(k, sep) {
            route(left, k)
        } else {
            left.len() + 1 + route(right, k)
        },
{
    let all = left + seq![sep] + right;
    let n = left.len() as int;
    assert(all[n] == sep);
    assert(keys_sorted(left)) by {
        assert forall|i: int, j: int| 0 <= i < j < left.len() implies key_lt(
            #[trigger] left[i],
            #[trigger] left[j],
        ) by {
            assert(all[i] == left[i] && all[j] == left[j]);
        }
    }
    assert(keys_sorted(right)) by {
        assert forall|i: int, j: int| 0 <= i < j < right.len() implies key_lt(
            #[trigger] right[i],
            #[trigger] right[j],
        ) by {
            assert(all[n + 1 + i] == right[i] && all[n + 1 + j] == right[j]);
        }
    }
    if key_lt(k, sep) {
        let r = route(left, k);
        lemma_route_props(left, k);
        assert forall|j: int| 0 <= j < r implies !key_lt(k, #[trigger] all[j]) by {
            assert(all[j] == left[j]);
        }
        if r < n {
            assert(all[r] == left[r]);
        }
        lemma_route_is(all, k, r);
    } else {
        let r = route(right, k);
        lemma_route_props(right, k);
        assert forall|j: int| 0 <= j < n + 1 + r implies !key_lt(k, #[trigger] all[j]) by {
            if j < n {
                assert(all[j] == left[j]);
                assert(key_lt(all[j], all[n]));
                lemma_key_trichotomy(k, sep);
                lemma_key_trichotomy(k, all[j]);
                if key_lt(k, all[j]) {
                    lemma_key_lt_transitive(k, all[j], sep);
                }
            } else if j > n {
                assert(all[j] == right[j - n - 1]);
            }
        }
        if r < right.len() {
            assert(all[n + 1 + r] == right[r]);
        }
        lemma_route_is(all, k, n + 1 + r);
    }
}

/// With the separator at `si` taken out, `route` gives what it gave up to
/// `si`, and one less after it.
#[verifier::rlimit(60)]
pub proof fn lemma_route_remove(keys: Seq<Key>, si: int, k: Key)
    requires
        keys_sorted(keys),
        0 <= si < keys.len(),
    ensures
        keys_sorted(keys.remove(si)),
        route(keys.remove(si), k) == if route(keys, k) <= si {
            route(keys, k)
        } else {
            route(keys, k) - 1
        },
{
    let less = keys.remove(si);
    let r = route(keys, k);
    lemma_route_props(keys, k);
    assert(keys_sorted(less)) by {
        assert forall|i: int, j: int| 0 <= i < j < less.len() implies key_lt(
            #[trigger] less[i],
            #[trigger] less[j],
        ) by {
            let a = if i < si {
                i
            } else {
                i + 1
            };
            let b = if j < si {
                j
            } else {
                j + 1
            };
            assert(less[i] == keys[a] && less[j] == keys[b]);
        }
    }
    let r2 = if r <= si {
        r
    } else {
        r - 1
    };
    assert forall|j: int| 0 <= j < r2 implies !key_lt(k, #[trigger] less[j]) by {
        if j < si {
            assert(less[j] == keys[j]);
        } else {
            assert(less[j] == keys[j + 1]);
        }
    }
    if r2 < less.len() {
        if r2 < si {
            assert(less[r2] == keys[r2]);
        } else {
            assert(less[r2] == keys[r2 + 1]);
            if r <= si {
                assert(r == si);
                assert(key_lt(keys[si], keys[si + 1]));
                lemma_key_lt_transitive(k, keys[si], keys[si + 1]);
            }
        }
    }
    lemma_route_is(less, k, r2);
}

/// With the separator at `si` replaced by `m`, where that keeps the order,
/// `route` gives what it gave before `si` and after the child behind it,
/// and for those two children `si` or the next as `k` is before `m` or
/// not.
#[verifier::rlimit(60)]
pub proof fn lemma_route_update(keys: Seq<Key>, si: int, m: Key, k: Key)
    requires
        keys_sorted(keys),
        0 <= si < keys.len(),
        si > 0 ==> key_lt(keys[si - 1], m),
        si + 1 < keys.len() ==> key_lt(m, keys[si + 1]),
    ensures
        keys_sorted(keys.update(si, m)),
        route(keys.update(si, m), k) == if route(keys, k) < si {
            route(keys, k)
        } else if route(keys, k) > si + 1 {
            route(keys, k)
        } else if key_lt(k, m) {
            si
        } else {
            si + 1
        },
{
    let new = keys.update(si, m);
    let r = route(keys, k);
    lemma_route_props(keys, k);
    assert(keys_sorted(new)) by {
        assert forall|i: int, j: int| 0 <= i < j < new.len() implies key_lt(
            #[trigger] new[i],
            #[trigger] new[j],
        ) by {
            if i != si && j != si {
                assert(new[i] == keys[i] && new[j] == keys[j]);
            } else if i == si {
                assert(new[j] == keys[j]);
                if j > si + 1 {
                    assert(key_lt(keys[si + 1], keys[j]));
                    lemma_key_lt_transitive(m, keys[si + 1], keys[j]);
                }
            } else {
                assert(new[i] == keys[i]);
                if i < si - 1 {
                    assert(key_lt(keys[i], keys[si - 1]));
                    lemma_key_lt_transitive(keys[i], keys[si - 1], m);
                }
            }
        }
    }
    let r2 = if r < si {
        r
    } else if r > si + 1 {
        r
    } else if key_lt(k, m) {
        si
    } else {
        si + 1
    };
    assert forall|j: int| 0 <= j < r2 implies !key_lt(k, #[trigger] new[j]) by {
        if j != si {
            assert(new[j] == keys[j]);
            if j < si && r >= si {
                assert(!key_lt(k, keys[j]));
            }
        } else {
            if r > si + 1 {
                assert(!key_lt(k, keys[si + 1]));
                lemma_key_trichotomy(k, keys[si + 1]);
                lemma_key_trichotomy(k, m);
                if key_lt(k, m) {
                    lemma_key_lt_transitive(k, m, keys[si + 1]);
                }
            }
        }
    }
    if r2 < new.len() {
        if r2 != si {
            assert(new[r2] == keys[r2]);
            if r2 == si + 1 && r <= si {
                if r < si + 1 {
                    assert(key_lt(k, keys[r]));
                    if r < si + 1 {
                        assert(r == si);
                        assert(key_lt(keys[si], keys[si + 1]));
                        lemma_key_lt_transitive(k, keys[si], keys[si + 1]);
                    }
                }
            }
        }
    }
    lemma_route_is(new, k, r2);
}

/// Whether the page at `p` is in use: it is a page of the storage and is
/// not free.
pub open spec fn live(pager: Pager, p: int) -> bool {
    is_page(pager.disk(), p) && !pager.free_list()->Some_0.contains(p)
}

/// Whether `post` came from the sound pager `pre` by taking pages only: it
/// is sound, has the same root, and every page that was in use is in use
/// and holds what it held.
pub open spec fn grew(pre: Pager, post: Pager) -> bool {
    &&& post.wf()
    &&& post.config.root_page == pre.config.root_page
    &&& forall|p: int| #[trigger]
        live(pre, p) ==> live(post, p) && page_at(post.disk(), p) == page_at(pre.disk(), p)
}

/// Whether the storage can grow by `n` pages: its end, and `n` pages more,
/// is an offset that the machine can hold.
pub open spec fn room(pager: Pager, n: nat) -> bool {
    pager.curser + n * PAGE_SIZE <= usize::MAX
}

/// Taking pages, and then taking pages again, is taking pages.
pub proof fn lemma_grew_transitive(a: Pager, b: Pager, c: Pager)
    requires
        grew(a, b),
        grew(b, c),
    ensures
        grew(a, c),
{
    assert forall|p: int| #[trigger] live(a, p) implies live(c, p) && page_at(c.disk(), p)
        == page_at(a.disk(), p) by {
        assert(live(b, p));
    }
}

/// A page that is taken was not in use and then is, and taking it leaves
/// every page that was in use as it was.
#[verifier::rlimit(60)]
pub proof fn lemma_took_grew(pre: Pager, post: Pager, o: int, bytes: Seq<u8>)
    requires
        pre.wf(),
        post.wf(),
        took_page(pre, post, o, bytes),
    ensures
        grew(pre, post),
        !live(pre, o),
        live(post, o),
        page_at(post.disk(), o) == bytes,
{
    let free = pre.free_list()->Some_0;
    lemma_chain_props(pre.disk(), pre.head());
    if free.len() > 0 {
        assert(free.contains(o));
        let rest = free.drop_first();
        assert(!rest.contains(o)) by {
            if rest.contains(o) {
                let i = choose|i: int| 0 <= i < rest.len() && rest[i] == o;
                assert(free[0] < free[i + 1]);
            }
        }
        assert forall|p: int| #[trigger] live(pre, p) implies live(post, p) && page_at(
            post.disk(),
            p,
        ) == page_at(pre.disk(), p) by {
            lemma_page_index_distinct(p, o);
            if rest.contains(p) {
                let i = choose|i: int| 0 <= i < rest.len() && rest[i] == p;
                assert(free[i + 1] == p);
            }
        }
    } else {
        assert forall|p: int| #[trigger] live(pre, p) implies live(post, p) && page_at(
            post.disk(),
            p,
        ) == page_at(pre.disk(), p) by {}
    }
}

/// A page that is taken is the only page that comes into use.
pub proof fn lemma_took_one(pre: Pager, post: Pager, o: int, bytes: Seq<u8>)
    requires
        pre.wf(),
        post.wf(),
        took_page(pre, post, o, bytes),
    ensures
        forall|p: int| #[trigger] live(post, p) ==> live(pre, p) || p == o,
{
    let free = pre.free_list()->Some_0;
    lemma_chain_props(pre.disk(), pre.head());
    assert forall|p: int| #[trigger] live(post, p) implies live(pre, p) || p == o by {
        if p != o {
            if free.len() > 0 {
                lemma_page_index_distinct(p, o);
                if free.contains(p) {
                    let i = choose|i: int| 0 <= i < free.len() && free[i] == p;
                    assert(free.drop_first()[i - 1] == p);
                }
            }
        }
    }
}

/// Whether every page of the tree of height `h` stored at `o` is in use.
pub open spec fn all_live(pager: Pager, o: int, h: nat) -> bool {
    forall|p: int| #[trigger] in_subtree(pager.disk(), o, h, p) ==> live(pager, p)
}

/// Whether the tree of height `hc` stored at `c` in `post` can stand where
/// the tree of height `h` stored at `o` in `pre` stood, or below a node that
/// does: each of its pages is in use, and was a page of the old tree below
/// its root or not in use; and no page of `fq`, the pages to give back, is a
/// page of it.
pub open spec fn settled(
    pre: Pager,
    post: Pager,
    o: int,
    h: nat,
    c: int,
    hc: nat,
    fq: Seq<usize>,
) -> bool {
    forall|p: int| #[trigger]
        in_subtree(post.disk(), c, hc, p) ==> live(post, p) && ((in_subtree(pre.disk(), o, h, p)
            && p != o) || !live(pre, p)) && !fq.contains(p as usize)
}

/// Whether the tree of height `h2` stored at `n` in `post` has taken the
/// place of the tree of height `h` stored at `o` in `pre`: it is sound
/// within the bounds and settled.
pub open spec fn replaced(
    pre: Pager,
    post: Pager,
    o: int,
    h: nat,
    n: int,
    h2: nat,
    lo: Option<Key>,
    hi: Option<Key>,
    fq: Seq<usize>,
) -> bool {
    &&& subtree(post.disk(), n, h2, lo, hi)
    &&& settled(pre, post, o, h, n, h2, fq)
}

/// Whether each page of `fq` is a page of the tree of height `h` stored at
/// `o`.
pub open spec fn from_tree(disk: Disk, o: int, h: nat, fq: Seq<usize>) -> bool {
    forall|i: int| 0 <= i < fq.len() ==> in_subtree(disk, o, h, #[trigger] fq[i] as int)
}

/// A tree that has replaced another is still that tree after more pages are
/// taken.
pub proof fn lemma_replaced_grew(
    pre: Pager,
    mid: Pager,
    post: Pager,
    o: int,
    h: nat,
    n: int,
    h2: nat,
    lo: Option<Key>,
    hi: Option<Key>,
    fq: Seq<usize>,
)
    requires
        replaced(pre, mid, o, h, n, h2, lo, hi, fq),
        grew(mid, post),
    ensures
        replaced(pre, post, o, h, n, h2, lo, hi, fq),
        pages(post.disk(), n, h2) == pages(mid.disk(), n, h2),
        forall|k: Key| #[trigger]
            lookup(post.disk(), n, h2, k) == lookup(mid.disk(), n, h2, k),
{
    lemma_subtree_frame(mid.disk(), post.disk(), n, h2, lo, hi);
    assert forall|p: int| #[trigger] in_subtree(post.disk(), n, h2, p) implies live(post, p) && ((
    in_subtree(pre.disk(), o, h, p) && p != o) || !live(pre, p)) && !fq.contains(p as usize) by {
        assert(in_subtree(mid.disk(), n, h2, p));
    }
}

/// A sound tree whose pages are all in use is still that tree, with its
/// pages in use, after pages are taken.
pub proof fn lemma_subtree_grew(
    pre: Pager,
    post: Pager,
    o: int,
    h: nat,
    lo: Option<Key>,
    hi: Option<Key>,
)
    requires
        subtree(pre.disk(), o, h, lo, hi),
        all_live(pre, o, h),
        grew(pre, post),
    ensures
        subtree(post.disk(), o, h, lo, hi),
        all_live(post, o, h),
        pages(post.disk(), o, h) == pages(pre.disk(), o, h),
        forall|k: Key| #[trigger] lookup(post.disk(), o, h, k) == lookup(pre.disk(), o, h, k),
{
    lemma_subtree_frame(pre.disk(), post.disk(), o, h, lo, hi);
    assert forall|p: int| #[trigger] in_subtree(post.disk(), o, h, p) implies live(post, p) by {
        assert(in_subtree(pre.disk(), o, h, p));
    }
}

/// Whether the node stored at `n` is an internal node with the separators
/// `keys` and the children `children` that occupies no more than a page.
pub open spec fn internal_at(disk: Disk, n: int, keys: Seq<Key>, children: Seq<usize>) -> bool {
    &&& node_at(disk, n) is Some
    &&& node_at(disk, n)->Some_0.kind == (KindView::Internal { keys, children })
    &&& space_at(disk, n) <= PAGE_SIZE
}

/// Whether `keys` can be the separators of a node within the bounds `lo`
/// and `hi`: they are in order, lie after `lo` and before `hi`, and each can
/// be stored.
pub open spec fn separators_ok(keys: Seq<Key>, lo: Option<Key>, hi: Option<Key>) -> bool {
    &&& keys_sorted(keys)
    &&& forall|i: int|
        0 <= i < keys.len() ==> above(lo, #[trigger] keys[i]) && below(keys[i], hi)
            && key_storable(keys[i])
}

/// Whether the trees of height `hc` stored at `children` can stand under a
/// node with the separators `keys` and the bounds `lo` and `hi`: each is
/// sound within the bounds that the separators give it, and no page belongs
/// to two of them.
pub open spec fn children_ok(
    disk: Disk,
    keys: Seq<Key>,
    children: Seq<usize>,
    hc: nat,
    lo: Option<Key>,
    hi: Option<Key>,
) -> bool {
    &&& children.len() == keys.len() + 1
    &&& forall|i: int|
        0 <= i < children.len() ==> subtree(
            disk,
            #[trigger] children[i] as int,
            hc,
            child_lo(keys, lo, i),
            child_hi(keys, hi, i),
        )
    &&& forall|i: int, j: int|
        0 <= i < j < children.len() ==> pages(disk, #[trigger] children[i] as int, hc).disjoint(
            pages(disk, #[trigger] children[j] as int, hc),
        )
}

/// Whether separators and children are ready to be written as a node that
/// takes the place of the tree of height `h` stored at `o` in `pre`, or
/// stands below one that does: the separators are sound, the children are,
/// and each child is settled.
#[verifier::opaque]
pub open spec fn ready(
    pre: Pager,
    cur: Pager,
    o: int,
    h: nat,
    keys: Seq<Key>,
    children: Seq<usize>,
    hc: nat,
    lo: Option<Key>,
    hi: Option<Key>,
    fq: Seq<usize>,
) -> bool {
    &&& separators_ok(keys, lo, hi)
    &&& children_ok(cur.disk(), keys, children, hc, lo, hi)
    &&& forall|i: int|
        0 <= i < children.len() ==> settled(pre, cur, o, h, #[trigger] children[i] as int, hc, fq)
}

/// The value that the children `children` of height `hc`, with the
/// separators `keys`, give to `k`.
pub open spec fn lookup_under(disk: Disk, keys: Seq<Key>, children: Seq<usize>, hc: nat, k: Key) -> Option<
    u64,
> {
    lookup(disk, children[route(keys, k)] as int, hc, k)
}

/// A sound internal node has separators and children that can stand under
/// it, none of its children holds its own page, and it gives each key what
/// its children give it.
pub proof fn lemma_subtree_internal(disk: Disk, o: int, h: nat, lo: Option<Key>, hi: Option<Key>)
    requires
        subtree(disk, o, h, lo, hi),
        node_at(disk, o)->Some_0.kind is Internal,
    ensures
        h > 0,
        storable(node_at(disk, o)->Some_0),
        internal_at(
            disk,
            o,
            node_at(disk, o)->Some_0.kind->Internal_keys,
            node_at(disk, o)->Some_0.kind->Internal_children,
        ),
        separators_ok(node_at(disk, o)->Some_0.kind->Internal_keys, lo, hi),
        children_ok(
            disk,
            node_at(disk, o)->Some_0.kind->Internal_keys,
            node_at(disk, o)->Some_0.kind->Internal_children,
            (h - 1) as nat,
            lo,
            hi,
        ),
        forall|i: int|
            0 <= i < node_at(disk, o)->Some_0.kind->Internal_children.len() ==> !in_subtree(
                disk,
                #[trigger] node_at(disk, o)->Some_0.kind->Internal_children[i] as int,
                (h - 1) as nat,
                o,
            ),
        node_at(disk, o)->Some_0.kind->Internal_keys.len() <= PAGE_SIZE,
        forall|k: Key| #[trigger]
            lookup(disk, o, h, k) == lookup_under(
                disk,
                node_at(disk, o)->Some_0.kind->Internal_keys,
                node_at(disk, o)->Some_0.kind->Internal_children,
                (h - 1) as nat,
                k,
            ),
{
    crate::node::lemma_decode_storable(page_at(disk, o));
}

/// An internal node written over separators and children that are ready is
/// a sound tree that has replaced the old one, and gives each key what the
/// children give it.
#[verifier::rlimit(60)]
pub proof fn lemma_assemble(
    pre: Pager,
    mid: Pager,
    post: Pager,
    o: int,
    h: nat,
    n: int,
    h2: nat,
    keys: Seq<Key>,
    children: Seq<usize>,
    lo: Option<Key>,
    hi: Option<Key>,
    fq: Seq<usize>,
    fq2: Seq<usize>,
)
    requires
        h2 > 0,
        live(pre, o),
        grew(pre, mid),
        grew(mid, post),
        !live(mid, n),
        live(post, n),
        internal_at(post.disk(), n, keys, children),
        ready(pre, mid, o, h, keys, children, (h2 - 1) as nat, lo, hi, fq),
        forall|x: usize| fq2.contains(x) ==> fq.contains(x) || x == o,
        forall|x: usize| fq.contains(x) ==> live(pre, x as int),
    ensures
        replaced(pre, post, o, h, n, h2, lo, hi, fq2),
        forall|k: Key| #[trigger]
            lookup(post.disk(), n, h2, k) == lookup_under(
                mid.disk(),
                keys,
                children,
                (h2 - 1) as nat,
                k,
            ),
{
    reveal(ready);
    let hc = (h2 - 1) as nat;
    let d1 = mid.disk();
    let d2 = post.disk();
    assert(!live(pre, n)) by {
        if live(pre, n) {
            assert(live(mid, n));
        }
    }
    assert forall|i: int| 0 <= i < children.len() implies {
        &&& subtree(d2, #[trigger] children[i] as int, hc, child_lo(keys, lo, i), child_hi(keys, hi, i))
        &&& pages(d2, children[i] as int, hc) == pages(d1, children[i] as int, hc)
        &&& forall|k: Key|
            lookup(d2, children[i] as int, hc, k) == lookup(d1, children[i] as int, hc, k)
    } by {
        let c = children[i] as int;
        assert(settled(pre, mid, o, h, c, hc, fq));
        assert forall|p: int| #[trigger] in_subtree(d1, c, hc, p) implies is_page(d2, p)
            && page_at(d2, p) == page_at(d1, p) by {
            assert(live(mid, p));
        }
        lemma_subtree_frame(d1, d2, c, hc, child_lo(keys, lo, i), child_hi(keys, hi, i));
    }
    assert forall|i: int| 0 <= i < children.len() implies !in_subtree(
        d2,
        #[trigger] children[i] as int,
        hc,
        n,
    ) by {
        let c = children[i] as int;
        assert(pages(d2, c, hc) == pages(d1, c, hc));
        assert(settled(pre, mid, o, h, c, hc, fq));
        if in_subtree(d2, c, hc, n) {
            assert(pages(d2, c, hc).contains(n));
            assert(in_subtree(d1, c, hc, n));
        }
    }
    assert(subtree(d2, n, h2, lo, hi));
    let kids = node_at(d2, n)->Some_0.kind->Internal_children;
    assert(kids == children);
    assert forall|p: int| #[trigger] in_subtree(d2, n, h2, p) implies live(post, p) && ((
    in_subtree(pre.disk(), o, h, p) && p != o) || !live(pre, p)) && !fq2.contains(p as usize) by {
        if p != n {
            let i = choose|i: int|
                0 <= i < kids.len() && in_subtree(d2, #[trigger] kids[i] as int, hc, p);
            let c = children[i] as int;
            assert(pages(d2, c, hc) == pages(d1, c, hc));
            assert(pages(d2, c, hc).contains(p));
            assert(in_subtree(d1, c, hc, p));
            assert(settled(pre, mid, o, h, c, hc, fq));
            assert(live(mid, p));
        }
    }
    assert forall|k: Key| #[trigger]
        lookup(d2, n, h2, k) == lookup_under(d1, keys, children, hc, k) by {
        lemma_route_range(keys, k);
        let i = route(keys, k);
        assert(lookup(d2, children[i] as int, hc, k) == lookup(d1, children[i] as int, hc, k));
    }
}

/// A tree that is settled stays so while pages are taken.
pub proof fn lemma_settled_grew(
    pre: Pager,
    mid: Pager,
    post: Pager,
    o: int,
    h: nat,
    c: int,
    hc: nat,
    lo: Option<Key>,
    hi: Option<Key>,
    fq: Seq<usize>,
)
    requires
        subtree(mid.disk(), c, hc, lo, hi),
        settled(pre, mid, o, h, c, hc, fq),
        grew(mid, post),
    ensures
        subtree(post.disk(), c, hc, lo, hi),
        settled(pre, post, o, h, c, hc, fq),
        pages(post.disk(), c, hc) == pages(mid.disk(), c, hc),
        forall|k: Key| #[trigger] lookup(post.disk(), c, hc, k) == lookup(mid.disk(), c, hc, k),
{
    assert forall|p: int| #[trigger] in_subtree(mid.disk(), c, hc, p) implies is_page(
        post.disk(),
        p,
    ) && page_at(post.disk(), p) == page_at(mid.disk(), p) by {
        assert(live(mid, p));
    }
    lemma_subtree_frame(mid.disk(), post.disk(), c, hc, lo, hi);
    assert forall|p: int| #[trigger] in_subtree(post.disk(), c, hc, p) implies live(post, p) && ((
    in_subtree(pre.disk(), o, h, p) && p != o) || !live(pre, p)) && !fq.contains(p as usize) by {
        assert(in_subtree(mid.disk(), c, hc, p));
        assert(live(mid, p));
    }
}

/// Separators and children that are ready stay so while pages are taken, and
/// give each key what they gave it.
#[verifier::rlimit(60)]
pub proof fn lemma_ready_grew(
    pre: Pager,
    mid: Pager,
    post: Pager,
    o: int,
    h: nat,
    keys: Seq<Key>,
    children: Seq<usize>,
    hc: nat,
    lo: Option<Key>,
    hi: Option<Key>,
    fq: Seq<usize>,
)
    requires
        ready(pre, mid, o, h, keys, children, hc, lo, hi, fq),
        grew(mid, post),
    ensures
        ready(pre, post, o, h, keys, children, hc, lo, hi, fq),
        forall|i: int|
            0 <= i < children.len() ==> pages(post.disk(), #[trigger] children[i] as int, hc)
                == pages(mid.disk(), children[i] as int, hc),
        forall|k: Key| #[trigger]
            lookup_under(post.disk(), keys, children, hc, k) == lookup_under(
                mid.disk(),
                keys,
                children,
                hc,
                k,
            ),
{
    reveal(ready);
    assert forall|i: int| 0 <= i < children.len() implies {
        &&& subtree(
            post.disk(),
            #[trigger] children[i] as int,
            hc,
            child_lo(keys, lo, i),
            child_hi(keys, hi, i),
        )
        &&& settled(pre, post, o, h, children[i] as int, hc, fq)
        &&& pages(post.disk(), children[i] as int, hc) == pages(mid.disk(), children[i] as int, hc)
    } by {
        lemma_settled_grew(
            pre,
            mid,
            post,
            o,
            h,
            children[i] as int,
            hc,
            child_lo(keys, lo, i),
            child_hi(keys, hi, i),
            fq,
        );
    }
    assert forall|k: Key| #[trigger]
        lookup_under(post.disk(), keys, children, hc, k) == lookup_under(
            mid.disk(),
            keys,
            children,
            hc,
            k,
        ) by {
        lemma_route_range(keys, k);
        let i = route(keys, k);
        lemma_settled_grew(
            pre,
            mid,
            post,
            o,
            h,
            children[i] as int,
            hc,
            child_lo(keys, lo, i),
            child_hi(keys, hi, i),
            fq,
        );
    }
    assert forall|i: int, j: int| 0 <= i < j < children.len() implies pages(
        post.disk(),
        #[trigger] children[i] as int,
        hc,
    ).disjoint(pages(post.disk(), #[trigger] children[j] as int, hc)) by {
        assert(pages(mid.disk(), children[i] as int, hc).disjoint(
            pages(mid.disk(), children[j] as int, hc),
        ));
    }
}

/// The separators and children of a sound node, while pages are taken, are
/// ready, where no page of `fq` lies below the node.
#[verifier::rlimit(60)]
pub proof fn lemma_ready_old(
    pre: Pager,
    cur: Pager,
    o: int,
    h: nat,
    lo: Option<Key>,
    hi: Option<Key>,
    fq: Seq<usize>,
)
    requires
        subtree(pre.disk(), o, h, lo, hi),
        node_at(pre.disk(), o)->Some_0.kind is Internal,
        all_live(pre, o, h),
        grew(pre, cur),
        forall|x: usize| fq.contains(x) ==> !in_subtree(pre.disk(), o, h, x as int) || x == o,
    ensures
        ready(
            pre,
            cur,
            o,
            h,
            node_at(pre.disk(), o)->Some_0.kind->Internal_keys,
            node_at(pre.disk(), o)->Some_0.kind->Internal_children,
            (h - 1) as nat,
            lo,
            hi,
            fq,
        ),
        forall|i: int|
            0 <= i < node_at(pre.disk(), o)->Some_0.kind->Internal_children.len() ==> pages(
                cur.disk(),
                #[trigger] node_at(pre.disk(), o)->Some_0.kind->Internal_children[i] as int,
                (h - 1) as nat,
            ) == pages(
                pre.disk(),
                node_at(pre.disk(), o)->Some_0.kind->Internal_children[i] as int,
                (h - 1) as nat,
            ),
        forall|k: Key| #[trigger]
            lookup_under(
                cur.disk(),
                node_at(pre.disk(), o)->Some_0.kind->Internal_keys,
                node_at(pre.disk(), o)->Some_0.kind->Internal_children,
                (h - 1) as nat,
                k,
            ) == lookup(pre.disk(), o, h, k),
{
    reveal(ready);
    let keys = node_at(pre.disk(), o)->Some_0.kind->Internal_keys;
    let children = node_at(pre.disk(), o)->Some_0.kind->Internal_children;
    let hc = (h - 1) as nat;
    lemma_subtree_internal(pre.disk(), o, h, lo, hi);
    assert forall|i: int| 0 <= i < children.len() implies {
        &&& subtree(
            cur.disk(),
            #[trigger] children[i] as int,
            hc,
            child_lo(keys, lo, i),
            child_hi(keys, hi, i),
        )
        &&& settled(pre, cur, o, h, children[i] as int, hc, fq)
        &&& pages(cur.disk(), children[i] as int, hc) == pages(pre.disk(), children[i] as int, hc)
        &&& forall|k: Key|
            lookup(cur.disk(), children[i] as int, hc, k) == #[trigger] lookup(
                pre.disk(),
                children[i] as int,
                hc,
                k,
            )
    } by {
        let c = children[i] as int;
        assert(subtree(pre.disk(), c, hc, child_lo(keys, lo, i), child_hi(keys, hi, i)));
        assert(all_live(pre, c, hc)) by {
            assert forall|p: int| #[trigger] in_subtree(pre.disk(), c, hc, p) implies live(
                pre,
                p,
            ) by {
                assert(in_subtree(pre.disk(), o, h, p));
            }
        }
        lemma_subtree_grew(pre, cur, c, hc, child_lo(keys, lo, i), child_hi(keys, hi, i));
        assert forall|p: int| #[trigger] in_subtree(cur.disk(), c, hc, p) implies live(cur, p) && ((
        in_subtree(pre.disk(), o, h, p) && p != o) || !live(pre, p)) && !fq.contains(
            p as usize,
        ) by {
            assert(pages(cur.disk(), c, hc).contains(p));
            assert(in_subtree(pre.disk(), c, hc, p));
            assert(in_subtree(pre.disk(), o, h, p));
            assert(!in_subtree(pre.disk(), c, hc, o));
            assert(live(pre, p));
            assert(p as usize as int == p);
        }
    }
    assert forall|i: int, j: int| 0 <= i < j < children.len() implies pages(
        cur.disk(),
        #[trigger] children[i] as int,
        hc,
    ).disjoint(pages(cur.disk(), #[trigger] children[j] as int, hc)) by {
        assert(pages(pre.disk(), children[i] as int, hc).disjoint(
            pages(pre.disk(), children[j] as int, hc),
        ));
    }
    assert forall|k: Key| #[trigger]
        lookup_under(cur.disk(), keys, children, hc, k) == lookup(pre.disk(), o, h, k) by {
        lemma_route_range(keys, k);
        let i = route(keys, k);
        assert(lookup(cur.disk(), children[i] as int, hc, k) == lookup(
            pre.disk(),
            children[i] as int,
            hc,
            k,
        ));
        assert(lookup(pre.disk(), o, h, k) == lookup_under(pre.disk(), keys, children, hc, k));
    }
}

/// The separators and children of a sound node, with the child `idx`
/// replaced by a tree that has replaced it, are ready, and give each key
/// what the new child gives it or what the old node gave it.
#[verifier::rlimit(60)]
pub proof fn lemma_ready_replace(
    pre: Pager,
    cur: Pager,
    o: int,
    h: nat,
    lo: Option<Key>,
    hi: Option<Key>,
    idx: int,
    c2: usize,
    fq: Seq<usize>,
)
    requires
        subtree(pre.disk(), o, h, lo, hi),
        node_at(pre.disk(), o)->Some_0.kind is Internal,
        all_live(pre, o, h),
        grew(pre, cur),
        0 <= idx < node_at(pre.disk(), o)->Some_0.kind->Internal_children.len(),
        replaced(
            pre,
            cur,
            node_at(pre.disk(), o)->Some_0.kind->Internal_children[idx] as int,
            (h - 1) as nat,
            c2 as int,
            (h - 1) as nat,
            child_lo(node_at(pre.disk(), o)->Some_0.kind->Internal_keys, lo, idx),
            child_hi(node_at(pre.disk(), o)->Some_0.kind->Internal_keys, hi, idx),
            fq,
        ),
        from_tree(
            pre.disk(),
            node_at(pre.disk(), o)->Some_0.kind->Internal_children[idx] as int,
            (h - 1) as nat,
            fq,
        ),
    ensures
        ready(
            pre,
            cur,
            o,
            h,
            node_at(pre.disk(), o)->Some_0.kind->Internal_keys,
            node_at(pre.disk(), o)->Some_0.kind->Internal_children.update(idx, c2),
            (h - 1) as nat,
            lo,
            hi,
            fq,
        ),
        forall|k: Key| #[trigger]
            lookup_under(
                cur.disk(),
                node_at(pre.disk(), o)->Some_0.kind->Internal_keys,
                node_at(pre.disk(), o)->Some_0.kind->Internal_children.update(idx, c2),
                (h - 1) as nat,
                k,
            ) == if route(node_at(pre.disk(), o)->Some_0.kind->Internal_keys, k) == idx {
                lookup(cur.disk(), c2 as int, (h - 1) as nat, k)
            } else {
                lookup(pre.disk(), o, h, k)
            },
        forall|x: usize| fq.contains(x) ==> live(pre, x as int) && in_subtree(pre.disk(), o, h, x as int) && x != o,
{
    reveal(ready);
    let keys = node_at(pre.disk(), o)->Some_0.kind->Internal_keys;
    let children = node_at(pre.disk(), o)->Some_0.kind->Internal_children;
    let kids = children.update(idx, c2);
    let hc = (h - 1) as nat;
    let c = children[idx] as int;
    let none = Seq::<usize>::empty();
    lemma_subtree_internal(pre.disk(), o, h, lo, hi);
    lemma_ready_old(pre, cur, o, h, lo, hi, none);
    assert forall|x: usize| fq.contains(x) implies live(pre, x as int) && in_subtree(
        pre.disk(),
        o,
        h,
        x as int,
    ) && x != o && in_subtree(pre.disk(), c, hc, x as int) by {
        let i = choose|i: int| 0 <= i < fq.len() && fq[i] == x;
        assert(in_subtree(pre.disk(), c, hc, fq[i] as int));
        assert(in_subtree(pre.disk(), o, h, x as int));
        assert(!in_subtree(pre.disk(), c, hc, o));
    }
    assert(!in_subtree(pre.disk(), c, hc, o));
    assert forall|i: int| 0 <= i < kids.len() implies {
        &&& subtree(
            cur.disk(),
            #[trigger] kids[i] as int,
            hc,
            child_lo(keys, lo, i),
            child_hi(keys, hi, i),
        )
        &&& settled(pre, cur, o, h, kids[i] as int, hc, fq)
    } by {
        if i == idx {
            assert forall|p: int| #[trigger] in_subtree(cur.disk(), c2 as int, hc, p) implies live(
                cur,
                p,
            ) && ((in_subtree(pre.disk(), o, h, p) && p != o) || !live(pre, p)) && !fq.contains(
                p as usize,
            ) by {
                if in_subtree(pre.disk(), c, hc, p) {
                    assert(in_subtree(pre.disk(), o, h, p));
                }
            }
        } else {
            let cj = children[i] as int;
            assert(kids[i] == children[i]);
            assert(settled(pre, cur, o, h, cj, hc, none));
            assert forall|p: int| #[trigger] in_subtree(cur.disk(), cj, hc, p) implies live(cur, p)
                && ((in_subtree(pre.disk(), o, h, p) && p != o) || !live(pre, p)) && !fq.contains(
                p as usize,
            ) by {
                assert(pages(cur.disk(), cj, hc).contains(p));
                assert(pages(pre.disk(), cj, hc).contains(p));
                if fq.contains(p as usize) {
                    assert(in_subtree(pre.disk(), c, hc, p as usize as int));
                    assert(live(cur, p));
                    assert(p as usize as int == p);
                    assert(pages(pre.disk(), c, hc).contains(p));
                    if i < idx {
                        assert(pages(pre.disk(), children[i] as int, hc).disjoint(
                            pages(pre.disk(), children[idx] as int, hc),
                        ));
                    } else {
                        assert(pages(pre.disk(), children[idx] as int, hc).disjoint(
                            pages(pre.disk(), children[i] as int, hc),
                        ));
                    }
                }
            }
        }
    }
    assert forall|i: int, j: int| 0 <= i < j < kids.len() implies pages(
        cur.disk(),
        #[trigger] kids[i] as int,
        hc,
    ).disjoint(pages(cur.disk(), #[trigger] kids[j] as int, hc)) by {
        if i != idx && j != idx {
            assert(kids[i] == children[i] && kids[j] == children[j]);
            assert(pages(cur.disk(), children[i] as int, hc).disjoint(
                pages(cur.disk(), children[j] as int, hc),
            ));
        } else {
            let other = if i == idx {
                j
            } else {
                i
            };
            let co = children[other] as int;
            assert(kids[other] == children[other]);
            assert(pages(cur.disk(), co, hc) == pages(pre.disk(), co, hc));
            assert forall|p: int|
                !(pages(cur.disk(), c2 as int, hc).contains(p) && pages(cur.disk(), co, hc).contains(
                    p,
                )) by {
                if pages(cur.disk(), c2 as int, hc).contains(p) && pages(
                    cur.disk(),
                    co,
                    hc,
                ).contains(p) {
                    assert(in_subtree(cur.disk(), c2 as int, hc, p));
                    assert(in_subtree(pre.disk(), co, hc, p));
                    assert(in_subtree(pre.disk(), o, h, p));
                    assert(live(pre, p));
                    assert(pages(pre.disk(), c, hc).contains(p));
                    if other < idx {
                        assert(pages(pre.disk(), children[other] as int, hc).disjoint(
                            pages(pre.disk(), children[idx] as int, hc),
                        ));
                    } else {
                        assert(pages(pre.disk(), children[idx] as int, hc).disjoint(
                            pages(pre.disk(), children[other] as int, hc),
                        ));
                    }
                }
            }
        }
    }
    assert forall|k: Key| #[trigger]
        lookup_under(cur.disk(), keys, kids, hc, k) == if route(keys, k) == idx {
            lookup(cur.disk(), c2 as int, hc, k)
        } else {
            lookup(pre.disk(), o, h, k)
        } by {
        lemma_route_range(keys, k);
        let r = route(keys, k);
        if r != idx {
            assert(kids[r] == children[r]);
            assert(lookup_under(cur.disk(), keys, children, hc, k) == lookup(pre.disk(), o, h, k));
        }
    }
}

/// The bounds of the children on either side of a separator put in at
/// `idx`.
pub proof fn lemma_child_bounds_insert(
    keys: Seq<Key>,
    idx: int,
    m: Key,
    lo: Option<Key>,
    hi: Option<Key>,
    j: int,
)
    requires
        0 <= idx <= keys.len(),
        0 <= j <= keys.len() + 1,
    ensures
        child_lo(keys.insert(idx, m), lo, j) == if j <= idx {
            child_lo(keys, lo, j)
        } else if j == idx + 1 {
            Some(m)
        } else {
            child_lo(keys, lo, j - 1)
        },
        child_hi(keys.insert(idx, m), hi, j) == if j < idx {
            child_hi(keys, hi, j)
        } else if j == idx {
            Some(m)
        } else {
            child_hi(keys, hi, j - 1)
        },
{
}

/// Whether two trees that `m` parts have replaced the child `idx` of the
/// sound node stored at `o`.
#[verifier::opaque]
pub open spec fn two_for_one(
    pre: Pager,
    cur: Pager,
    o: int,
    h: nat,
    lo: Option<Key>,
    hi: Option<Key>,
    idx: int,
    m: Key,
    first: usize,
    second: usize,
    fq: Seq<usize>,
) -> bool {
    let keys = node_at(pre.disk(), o)->Some_0.kind->Internal_keys;
    let children = node_at(pre.disk(), o)->Some_0.kind->Internal_children;
    let hc = (h - 1) as nat;
    &&& subtree(pre.disk(), o, h, lo, hi)
    &&& node_at(pre.disk(), o)->Some_0.kind is Internal
    &&& all_live(pre, o, h)
    &&& grew(pre, cur)
    &&& 0 <= idx < children.len()
    &&& key_storable(m)
    &&& above(child_lo(keys, lo, idx), m)
    &&& below(m, child_hi(keys, hi, idx))
    &&& replaced(
        pre,
        cur,
        children[idx] as int,
        hc,
        first as int,
        hc,
        child_lo(keys, lo, idx),
        Some(m),
        fq,
    )
    &&& replaced(
        pre,
        cur,
        children[idx] as int,
        hc,
        second as int,
        hc,
        Some(m),
        child_hi(keys, hi, idx),
        fq,
    )
    &&& pages(cur.disk(), first as int, hc).disjoint(pages(cur.disk(), second as int, hc))
    &&& from_tree(pre.disk(), children[idx] as int, hc, fq)
}

/// What `two_for_one` says of the old node and the promoted key.
proof fn lemma_two_parts(
    pre: Pager,
    cur: Pager,
    o: int,
    h: nat,
    lo: Option<Key>,
    hi: Option<Key>,
    idx: int,
    m: Key,
    first: usize,
    second: usize,
    fq: Seq<usize>,
)
    requires
        two_for_one(pre, cur, o, h, lo, hi, idx, m, first, second, fq),
    ensures
        subtree(pre.disk(), o, h, lo, hi),
        node_at(pre.disk(), o)->Some_0.kind is Internal,
        all_live(pre, o, h),
        grew(pre, cur),
        0 <= idx < node_at(pre.disk(), o)->Some_0.kind->Internal_children.len(),
        key_storable(m),
        above(child_lo(node_at(pre.disk(), o)->Some_0.kind->Internal_keys, lo, idx), m),
        below(m, child_hi(node_at(pre.disk(), o)->Some_0.kind->Internal_keys, hi, idx)),
{
    reveal(two_for_one);
}

/// Separators that are ready are sound, and there is one child more than
/// there are separators.
pub proof fn lemma_ready_parts(
    pre: Pager,
    cur: Pager,
    o: int,
    h: nat,
    keys: Seq<Key>,
    children: Seq<usize>,
    hc: nat,
    lo: Option<Key>,
    hi: Option<Key>,
    fq: Seq<usize>,
)
    requires
        ready(pre, cur, o, h, keys, children, hc, lo, hi, fq),
    ensures
        separators_ok(keys, lo, hi),
        children.len() == keys.len() + 1,
{
    reveal(ready);
}

/// The pages to give back after a child was replaced are pages of the old
/// child.
proof fn lemma_two_fq(
    pre: Pager,
    cur: Pager,
    o: int,
    h: nat,
    lo: Option<Key>,
    hi: Option<Key>,
    idx: int,
    m: Key,
    first: usize,
    second: usize,
    fq: Seq<usize>,
)
    requires
        two_for_one(pre, cur, o, h, lo, hi, idx, m, first, second, fq),
    ensures
        forall|x: usize|
            fq.contains(x) ==> live(pre, x as int) && in_subtree(pre.disk(), o, h, x as int) && x
                != o && in_subtree(
                pre.disk(),
                node_at(pre.disk(), o)->Some_0.kind->Internal_children[idx] as int,
                (h - 1) as nat,
                x as int,
            ),
{
    reveal(two_for_one);
    let children = node_at(pre.disk(), o)->Some_0.kind->Internal_children;
    let hc = (h - 1) as nat;
    let c = children[idx] as int;
    lemma_subtree_internal(pre.disk(), o, h, lo, hi);
    assert(!in_subtree(pre.disk(), c, hc, o));
    assert forall|x: usize| fq.contains(x) implies live(pre, x as int) && in_subtree(
        pre.disk(),
        o,
        h,
        x as int,
    ) && x != o && in_subtree(pre.disk(), c, hc, x as int) by {
        let i = choose|i: int| 0 <= i < fq.len() && fq[i] == x;
        assert(in_subtree(pre.disk(), c, hc, fq[i] as int));
        assert(in_subtree(pre.disk(), o, h, x as int));
    }
}

/// A tree that has replaced the child `idx` of a sound node is settled
/// below what takes the place of the node, and no page of it is a page of
/// another child.
#[verifier::rlimit(60)]
proof fn lemma_new_child(
    pre: Pager,
    cur: Pager,
    o: int,
    h: nat,
    lo: Option<Key>,
    hi: Option<Key>,
    idx: int,
    t: int,
    tlo: Option<Key>,
    thi: Option<Key>,
    fq: Seq<usize>,
    j: int,
)
    requires
        subtree(pre.disk(), o, h, lo, hi),
        node_at(pre.disk(), o)->Some_0.kind is Internal,
        all_live(pre, o, h),
        grew(pre, cur),
        0 <= idx < node_at(pre.disk(), o)->Some_0.kind->Internal_children.len(),
        0 <= j < node_at(pre.disk(), o)->Some_0.kind->Internal_children.len(),
        j != idx,
        replaced(
            pre,
            cur,
            node_at(pre.disk(), o)->Some_0.kind->Internal_children[idx] as int,
            (h - 1) as nat,
            t,
            (h - 1) as nat,
            tlo,
            thi,
            fq,
        ),
    ensures
        settled(pre, cur, o, h, t, (h - 1) as nat, fq),
        pages(cur.disk(), t, (h - 1) as nat).disjoint(
            pages(
                pre.disk(),
                node_at(pre.disk(), o)->Some_0.kind->Internal_children[j] as int,
                (h - 1) as nat,
            ),
        ),
{
    let children = node_at(pre.disk(), o)->Some_0.kind->Internal_children;
    let hc = (h - 1) as nat;
    let c = children[idx] as int;
    let co = children[j] as int;
    lemma_subtree_internal(pre.disk(), o, h, lo, hi);
    assert(!in_subtree(pre.disk(), c, hc, o));
    assert forall|p: int| #[trigger] in_subtree(cur.disk(), t, hc, p) implies live(cur, p) && ((
    in_subtree(pre.disk(), o, h, p) && p != o) || !live(pre, p)) && !fq.contains(p as usize) by {
        if in_subtree(pre.disk(), c, hc, p) {
            assert(in_subtree(pre.disk(), o, h, p));
        }
    }
    assert forall|p: int|
        !(pages(cur.disk(), t, hc).contains(p) && pages(pre.disk(), co, hc).contains(p)) by {
        if pages(cur.disk(), t, hc).contains(p) && pages(pre.disk(), co, hc).contains(p) {
            assert(in_subtree(cur.disk(), t, hc, p));
            assert(in_subtree(pre.disk(), co, hc, p));
            assert(in_subtree(pre.disk(), o, h, p));
            assert(live(pre, p));
            assert(pages(pre.disk(), c, hc).contains(p));
            if j < idx {
                assert(pages(pre.disk(), children[j] as int, hc).disjoint(
                    pages(pre.disk(), children[idx] as int, hc),
                ));
            } else {
                assert(pages(pre.disk(), children[idx] as int, hc).disjoint(
                    pages(pre.disk(), children[j] as int, hc),
                ));
            }
        }
    }
}

/// A child of a sound node other than the child `idx`, left as it was while
/// pages were taken, is settled, where every page to give back is a page of
/// the child `idx`.
#[verifier::rlimit(60)]
proof fn lemma_old_child(
    pre: Pager,
    cur: Pager,
    o: int,
    h: nat,
    lo: Option<Key>,
    hi: Option<Key>,
    idx: int,
    fq: Seq<usize>,
    j: int,
)
    requires
        subtree(pre.disk(), o, h, lo, hi),
        node_at(pre.disk(), o)->Some_0.kind is Internal,
        all_live(pre, o, h),
        grew(pre, cur),
        0 <= idx < node_at(pre.disk(), o)->Some_0.kind->Internal_children.len(),
        0 <= j < node_at(pre.disk(), o)->Some_0.kind->Internal_children.len(),
        j != idx,
        from_tree(
            pre.disk(),
            node_at(pre.disk(), o)->Some_0.kind->Internal_children[idx] as int,
            (h - 1) as nat,
            fq,
        ),
    ensures
        subtree(
            cur.disk(),
            node_at(pre.disk(), o)->Some_0.kind->Internal_children[j] as int,
            (h - 1) as nat,
            child_lo(node_at(pre.disk(), o)->Some_0.kind->Internal_keys, lo, j),
            child_hi(node_at(pre.disk(), o)->Some_0.kind->Internal_keys, hi, j),
        ),
        settled(
            pre,
            cur,
            o,
            h,
            node_at(pre.disk(), o)->Some_0.kind->Internal_children[j] as int,
            (h - 1) as nat,
            fq,
        ),
        pages(
            cur.disk(),
            node_at(pre.disk(), o)->Some_0.kind->Internal_children[j] as int,
            (h - 1) as nat,
        ) == pages(
            pre.disk(),
            node_at(pre.disk(), o)->Some_0.kind->Internal_children[j] as int,
            (h - 1) as nat,
        ),
{
    reveal(ready);
    let keys = node_at(pre.disk(), o)->Some_0.kind->Internal_keys;
    let children = node_at(pre.disk(), o)->Some_0.kind->Internal_children;
    let hc = (h - 1) as nat;
    let c = children[idx] as int;
    let cj = children[j] as int;
    lemma_ready_old(pre, cur, o, h, lo, hi, Seq::<usize>::empty());
    assert(settled(pre, cur, o, h, cj, hc, Seq::<usize>::empty()));
    assert(pages(cur.disk(), cj, hc) == pages(pre.disk(), cj, hc));
    lemma_subtree_internal(pre.disk(), o, h, lo, hi);
    assert forall|p: int| #[trigger] in_subtree(cur.disk(), cj, hc, p) implies live(cur, p) && ((
    in_subtree(pre.disk(), o, h, p) && p != o) || !live(pre, p)) && !fq.contains(p as usize) by {
        assert(pages(cur.disk(), cj, hc).contains(p));
        assert(pages(pre.disk(), cj, hc).contains(p));
        if fq.contains(p as usize) {
            let i = choose|i: int| 0 <= i < fq.len() && fq[i] == p as usize;
            assert(in_subtree(pre.disk(), c, hc, fq[i] as int));
            assert(live(cur, p));
            assert(p as usize as int == p);
            assert(pages(pre.disk(), c, hc).contains(p));
            if j < idx {
                assert(pages(pre.disk(), children[j] as int, hc).disjoint(
                    pages(pre.disk(), children[idx] as int, hc),
                ));
            } else {
                assert(pages(pre.disk(), children[idx] as int, hc).disjoint(
                    pages(pre.disk(), children[j] as int, hc),
                ));
            }
        }
    }
}

/// The old child that stands at the place `i` after the child `idx` was
/// replaced by two.
pub open spec fn place_before(idx: int, i: int) -> int {
    if i < idx {
        i
    } else {
        i - 1
    }
}

#[verifier::rlimit(60)]
proof fn lemma_two_each(
    pre: Pager,
    cur: Pager,
    o: int,
    h: nat,
    lo: Option<Key>,
    hi: Option<Key>,
    idx: int,
    m: Key,
    first: usize,
    second: usize,
    fq: Seq<usize>,
    i: int,
)
    requires
        two_for_one(pre, cur, o, h, lo, hi, idx, m, first, second, fq),
        0 <= i < node_at(pre.disk(), o)->Some_0.kind->Internal_children.len() + 1,
    ensures
        subtree(
            cur.disk(),
            node_at(pre.disk(), o)->Some_0.kind->Internal_children.update(idx, first).insert(
                idx + 1,
                second,
            )[i] as int,
            (h - 1) as nat,
            child_lo(node_at(pre.disk(), o)->Some_0.kind->Internal_keys.insert(idx, m), lo, i),
            child_hi(node_at(pre.disk(), o)->Some_0.kind->Internal_keys.insert(idx, m), hi, i),
        ),
        settled(
            pre,
            cur,
            o,
            h,
            node_at(pre.disk(), o)->Some_0.kind->Internal_children.update(idx, first).insert(
                idx + 1,
                second,
            )[i] as int,
            (h - 1) as nat,
            fq,
        ),
{
    reveal(two_for_one);
    let keys = node_at(pre.disk(), o)->Some_0.kind->Internal_keys;
    let children = node_at(pre.disk(), o)->Some_0.kind->Internal_children;
    let kids = children.update(idx, first).insert(idx + 1, second);
    let hc = (h - 1) as nat;
    lemma_subtree_internal(pre.disk(), o, h, lo, hi);
    lemma_child_bounds_insert(keys, idx, m, lo, hi, i);
    let other = if idx == 0 {
        1int
    } else {
        0int
    };
    if i == idx {
        assert(kids[i] == first);
        if children.len() > 1 {
            lemma_new_child(
                pre,
                cur,
                o,
                h,
                lo,
                hi,
                idx,
                first as int,
                child_lo(keys, lo, idx),
                Some(m),
                fq,
                other,
            );
        } else {
            assert forall|p: int| #[trigger]
                in_subtree(cur.disk(), first as int, hc, p) implies live(cur, p) && ((in_subtree(
                pre.disk(),
                o,
                h,
                p,
            ) && p != o) || !live(pre, p)) && !fq.contains(p as usize) by {
                if in_subtree(pre.disk(), children[idx] as int, hc, p) {
                    assert(in_subtree(pre.disk(), o, h, p));
                    assert(!in_subtree(pre.disk(), children[idx] as int, hc, o));
                }
            }
        }
    } else if i == idx + 1 {
        assert(kids[i] == second);
        if children.len() > 1 {
            lemma_new_child(
                pre,
                cur,
                o,
                h,
                lo,
                hi,
                idx,
                second as int,
                Some(m),
                child_hi(keys, hi, idx),
                fq,
                other,
            );
        } else {
            assert forall|p: int| #[trigger]
                in_subtree(cur.disk(), second as int, hc, p) implies live(cur, p) && ((in_subtree(
                pre.disk(),
                o,
                h,
                p,
            ) && p != o) || !live(pre, p)) && !fq.contains(p as usize) by {
                if in_subtree(pre.disk(), children[idx] as int, hc, p) {
                    assert(in_subtree(pre.disk(), o, h, p));
                    assert(!in_subtree(pre.disk(), children[idx] as int, hc, o));
                }
            }
        }
    } else {
        let j = place_before(idx, i);
        assert(kids[i] == children[j]);
        lemma_old_child(pre, cur, o, h, lo, hi, idx, fq, j);
    }
}

#[verifier::rlimit(60)]
proof fn lemma_two_apart(
    pre: Pager,
    cur: Pager,
    o: int,
    h: nat,
    lo: Option<Key>,
    hi: Option<Key>,
    idx: int,
    m: Key,
    first: usize,
    second: usize,
    fq: Seq<usize>,
    i: int,
    j: int,
)
    requires
        two_for_one(pre, cur, o, h, lo, hi, idx, m, first, second, fq),
        0 <= i < j < node_at(pre.disk(), o)->Some_0.kind->Internal_children.len() + 1,
    ensures
        pages(
            cur.disk(),
            node_at(pre.disk(), o)->Some_0.kind->Internal_children.update(idx, first).insert(
                idx + 1,
                second,
            )[i] as int,
            (h - 1) as nat,
        ).disjoint(
            pages(
                cur.disk(),
                node_at(pre.disk(), o)->Some_0.kind->Internal_children.update(idx, first).insert(
                    idx + 1,
                    second,
                )[j] as int,
                (h - 1) as nat,
            ),
        ),
{
    reveal(two_for_one);
    let keys = node_at(pre.disk(), o)->Some_0.kind->Internal_keys;
    let children = node_at(pre.disk(), o)->Some_0.kind->Internal_children;
    let kids = children.update(idx, first).insert(idx + 1, second);
    let hc = (h - 1) as nat;
    lemma_subtree_internal(pre.disk(), o, h, lo, hi);
    let new_i = i == idx || i == idx + 1;
    let new_j = j == idx || j == idx + 1;
    let oi = place_before(idx, i);
    let oj = place_before(idx, j);
    if new_i && new_j {
        assert(kids[i] == first && kids[j] == second);
    } else if !new_i && !new_j {
        assert(kids[i] == children[oi] && kids[j] == children[oj]);
        lemma_old_child(pre, cur, o, h, lo, hi, idx, fq, oi);
        lemma_old_child(pre, cur, o, h, lo, hi, idx, fq, oj);
        assert(pages(pre.disk(), children[oi] as int, hc).disjoint(
            pages(pre.disk(), children[oj] as int, hc),
        ));
    } else if new_i {
        assert(kids[j] == children[oj]);
        lemma_old_child(pre, cur, o, h, lo, hi, idx, fq, oj);
        if i == idx {
            assert(kids[i] == first);
            lemma_new_child(
                pre,
                cur,
                o,
                h,
                lo,
                hi,
                idx,
                first as int,
                child_lo(keys, lo, idx),
                Some(m),
                fq,
                oj,
            );
        } else {
            assert(kids[i] == second);
            lemma_new_child(
                pre,
                cur,
                o,
                h,
                lo,
                hi,
                idx,
                second as int,
                Some(m),
                child_hi(keys, hi, idx),
                fq,
                oj,
            );
        }
    } else {
        assert(kids[i] == children[oi]);
        lemma_old_child(pre, cur, o, h, lo, hi, idx, fq, oi);
        if j == idx {
            assert(kids[j] == first);
            lemma_new_child(
                pre,
                cur,
                o,
                h,
                lo,
                hi,
                idx,
                first as int,
                child_lo(keys, lo, idx),
                Some(m),
                fq,
                oi,
            );
        } else {
            assert(kids[j] == second);
            lemma_new_child(
                pre,
                cur,
                o,
                h,
                lo,
                hi,
                idx,
                second as int,
                Some(m),
                child_hi(keys, hi, idx),
                fq,
                oi,
            );
        }
    }
}

proof fn lemma_two_separators(
    keys: Seq<Key>,
    lo: Option<Key>,
    hi: Option<Key>,
    idx: int,
    m: Key,
)
    requires
        separators_ok(keys, lo, hi),
        0 <= idx <= keys.len(),
        key_storable(m),
        above(child_lo(keys, lo, idx), m),
        below(m, child_hi(keys, hi, idx)),
    ensures
        separators_ok(keys.insert(idx, m), lo, hi),
{
    let keys2 = keys.insert(idx, m);
    lemma_route_insert(keys, idx, m, m);
    assert forall|i: int| 0 <= i < keys2.len() implies above(lo, #[trigger] keys2[i]) && below(
        keys2[i],
        hi,
    ) && key_storable(keys2[i]) by {
        if i < idx {
            assert(keys2[i] == keys[i]);
        } else if i > idx {
            assert(keys2[i] == keys[i - 1]);
        } else {
            if idx > 0 && lo is Some {
                assert(above(lo, keys[idx - 1]));
                lemma_key_lt_transitive(lo->Some_0, keys[idx - 1], m);
            }
            if idx < keys.len() && hi is Some {
                assert(below(keys[idx], hi));
                lemma_key_lt_transitive(m, keys[idx], hi->Some_0);
            }
        }
    }
}

/// The separators and children of a sound node, with the child `idx`
/// replaced by two trees that have replaced it and the separator `m` that
/// parts them, are ready, and give each key what the new children give it
/// or what the old node gave it.
#[verifier::rlimit(60)]
pub proof fn lemma_ready_replace_two(
    pre: Pager,
    cur: Pager,
    o: int,
    h: nat,
    lo: Option<Key>,
    hi: Option<Key>,
    idx: int,
    m: Key,
    first: usize,
    second: usize,
    fq: Seq<usize>,
)
    requires
        two_for_one(pre, cur, o, h, lo, hi, idx, m, first, second, fq),
    ensures
        ready(
            pre,
            cur,
            o,
            h,
            node_at(pre.disk(), o)->Some_0.kind->Internal_keys.insert(idx, m),
            node_at(pre.disk(), o)->Some_0.kind->Internal_children.update(idx, first).insert(
                idx + 1,
                second,
            ),
            (h - 1) as nat,
            lo,
            hi,
            fq,
        ),
        forall|k: Key| #[trigger]
            lookup_under(
                cur.disk(),
                node_at(pre.disk(), o)->Some_0.kind->Internal_keys.insert(idx, m),
                node_at(pre.disk(), o)->Some_0.kind->Internal_children.update(idx, first).insert(
                    idx + 1,
                    second,
                ),
                (h - 1) as nat,
                k,
            ) == if route(node_at(pre.disk(), o)->Some_0.kind->Internal_keys, k) == idx {
                if key_lt(k, m) {
                    lookup(cur.disk(), first as int, (h - 1) as nat, k)
                } else {
                    lookup(cur.disk(), second as int, (h - 1) as nat, k)
                }
            } else {
                lookup(pre.disk(), o, h, k)
            },
        forall|x: usize|
            fq.contains(x) ==> live(pre, x as int) && in_subtree(pre.disk(), o, h, x as int) && x
                != o,
{
    reveal(ready);
    lemma_two_parts(pre, cur, o, h, lo, hi, idx, m, first, second, fq);
    let keys = node_at(pre.disk(), o)->Some_0.kind->Internal_keys;
    let children = node_at(pre.disk(), o)->Some_0.kind->Internal_children;
    let keys2 = keys.insert(idx, m);
    let kids = children.update(idx, first).insert(idx + 1, second);
    let hc = (h - 1) as nat;
    lemma_subtree_internal(pre.disk(), o, h, lo, hi);
    lemma_two_fq(pre, cur, o, h, lo, hi, idx, m, first, second, fq);
    lemma_two_separators(keys, lo, hi, idx, m);
    assert forall|i: int| 0 <= i < kids.len() implies {
        &&& subtree(
            cur.disk(),
            #[trigger] kids[i] as int,
            hc,
            child_lo(keys2, lo, i),
            child_hi(keys2, hi, i),
        )
        &&& settled(pre, cur, o, h, kids[i] as int, hc, fq)
    } by {
        lemma_two_each(pre, cur, o, h, lo, hi, idx, m, first, second, fq, i);
    }
    assert forall|i: int, j: int| 0 <= i < j < kids.len() implies pages(
        cur.disk(),
        #[trigger] kids[i] as int,
        hc,
    ).disjoint(pages(cur.disk(), #[trigger] kids[j] as int, hc)) by {
        lemma_two_apart(pre, cur, o, h, lo, hi, idx, m, first, second, fq, i, j);
    }
    lemma_ready_old(pre, cur, o, h, lo, hi, Seq::<usize>::empty());
    assert forall|k: Key| #[trigger]
        lookup_under(cur.disk(), keys2, kids, hc, k) == if route(keys, k) == idx {
            if key_lt(k, m) {
                lookup(cur.disk(), first as int, hc, k)
            } else {
                lookup(cur.disk(), second as int, hc, k)
            }
        } else {
            lookup(pre.disk(), o, h, k)
        } by {
        lemma_route_range(keys, k);
        lemma_route_insert(keys, idx, m, k);
        let r = route(keys, k);
        let r2 = route(keys2, k);
        if r < idx {
            assert(kids[r2] == children[r]);
        } else if r > idx {
            assert(kids[r2] == children[r]);
        }
        if r != idx {
            assert(lookup_under(cur.disk(), keys, children, hc, k) == lookup(pre.disk(), o, h, k));
        }
    }
}

/// Among separators in order, cut at `m`, a key is led to the child that
/// its half leads it to.
#[verifier::rlimit(60)]
proof fn lemma_split_lookup(
    disk: Disk,
    keys: Seq<Key>,
    children: Seq<usize>,
    hc: nat,
    m: int,
    k: Key,
)
    requires
        keys_sorted(keys),
        children.len() == keys.len() + 1,
        0 <= m < keys.len(),
    ensures
        lookup_under(disk, keys, children, hc, k) == if key_lt(k, keys[m]) {
            lookup_under(disk, keys.subrange(0, m), children.subrange(0, m + 1), hc, k)
        } else {
            lookup_under(
                disk,
                keys.subrange(m + 1, keys.len() as int),
                children.subrange(m + 1, children.len() as int),
                hc,
                k,
            )
        },
{
    let sep = keys[m];
    let lk = keys.subrange(0, m);
    let rk = keys.subrange(m + 1, keys.len() as int);
    let lc = children.subrange(0, m + 1);
    let rc = children.subrange(m + 1, children.len() as int);
    assert(keys =~= lk + seq![sep] + rk);
    lemma_route_concat(lk, sep, rk, k);
    lemma_route_range(lk, k);
    lemma_route_range(rk, k);
    if key_lt(k, sep) {
        assert(lc[route(lk, k)] == children[route(lk, k)]);
    } else {
        assert(rc[route(rk, k)] == children[m + 1 + route(rk, k)]);
    }
}

/// The separators before and after the separator at `m` are sound within
/// the bounds that it gives them.
proof fn lemma_split_separators(keys: Seq<Key>, lo: Option<Key>, hi: Option<Key>, m: int)
    requires
        separators_ok(keys, lo, hi),
        0 <= m < keys.len(),
    ensures
        separators_ok(keys.subrange(0, m), lo, Some(keys[m])),
        separators_ok(keys.subrange(m + 1, keys.len() as int), Some(keys[m]), hi),
{
    let sep = keys[m];
    let lk = keys.subrange(0, m);
    let rk = keys.subrange(m + 1, keys.len() as int);
    assert(keys =~= lk + seq![sep] + rk);
    lemma_route_concat(lk, sep, rk, sep);
    assert forall|i: int| 0 <= i < lk.len() implies above(lo, #[trigger] lk[i]) && below(
        lk[i],
        Some(sep),
    ) && key_storable(lk[i]) by {
        assert(lk[i] == keys[i]);
        assert(key_lt(keys[i], keys[m]));
    }
    assert forall|i: int| 0 <= i < rk.len() implies above(Some(sep), #[trigger] rk[i]) && below(
        rk[i],
        hi,
    ) && key_storable(rk[i]) by {
        assert(rk[i] == keys[m + 1 + i]);
        assert(key_lt(keys[m], keys[m + 1 + i]));
    }
}

/// The children up to and with the child `m` can stand below the separators
/// before the separator at `m`.
#[verifier::rlimit(60)]
proof fn lemma_split_left(
    disk: Disk,
    keys: Seq<Key>,
    children: Seq<usize>,
    hc: nat,
    lo: Option<Key>,
    hi: Option<Key>,
    m: int,
)
    requires
        children_ok(disk, keys, children, hc, lo, hi),
        0 <= m < keys.len(),
    ensures
        children_ok(
            disk,
            keys.subrange(0, m),
            children.subrange(0, m + 1),
            hc,
            lo,
            Some(keys[m]),
        ),
{
    let sep = keys[m];
    let lk = keys.subrange(0, m);
    let lc = children.subrange(0, m + 1);
    assert forall|i: int| 0 <= i < lc.len() implies subtree(
        disk,
        #[trigger] lc[i] as int,
        hc,
        child_lo(lk, lo, i),
        child_hi(lk, Some(sep), i),
    ) by {
        assert(lc[i] == children[i]);
        if i > 0 {
            assert(lk[i - 1] == keys[i - 1]);
        }
        if i < m {
            assert(lk[i] == keys[i]);
        }
        assert(child_lo(lk, lo, i) == child_lo(keys, lo, i));
        assert(child_hi(lk, Some(sep), i) == child_hi(keys, hi, i));
    }
    assert forall|i: int, j: int| 0 <= i < j < lc.len() implies pages(
        disk,
        #[trigger] lc[i] as int,
        hc,
    ).disjoint(pages(disk, #[trigger] lc[j] as int, hc)) by {
        assert(lc[i] == children[i] && lc[j] == children[j]);
        assert(pages(disk, children[i] as int, hc).disjoint(pages(disk, children[j] as int, hc)));
    }
}

/// The children after the child `m` can stand below the separators after
/// the separator at `m`.
#[verifier::rlimit(60)]
proof fn lemma_split_right(
    disk: Disk,
    keys: Seq<Key>,
    children: Seq<usize>,
    hc: nat,
    lo: Option<Key>,
    hi: Option<Key>,
    m: int,
)
    requires
        children_ok(disk, keys, children, hc, lo, hi),
        0 <= m < keys.len(),
    ensures
        children_ok(
            disk,
            keys.subrange(m + 1, keys.len() as int),
            children.subrange(m + 1, children.len() as int),
            hc,
            Some(keys[m]),
            hi,
        ),
{
    let sep = keys[m];
    let rk = keys.subrange(m + 1, keys.len() as int);
    let rc = children.subrange(m + 1, children.len() as int);
    assert forall|i: int| 0 <= i < rc.len() implies subtree(
        disk,
        #[trigger] rc[i] as int,
        hc,
        child_lo(rk, Some(sep), i),
        child_hi(rk, hi, i),
    ) by {
        assert(rc[i] == children[m + 1 + i]);
        if i > 0 {
            assert(rk[i - 1] == keys[m + i]);
        }
        if i < rk.len() {
            assert(rk[i] == keys[m + 1 + i]);
        }
        assert(child_lo(rk, Some(sep), i) == child_lo(keys, lo, m + 1 + i));
        assert(child_hi(rk, hi, i) == child_hi(keys, hi, m + 1 + i));
    }
    assert forall|i: int, j: int| 0 <= i < j < rc.len() implies pages(
        disk,
        #[trigger] rc[i] as int,
        hc,
    ).disjoint(pages(disk, #[trigger] rc[j] as int, hc)) by {
        assert(rc[i] == children[m + 1 + i] && rc[j] == children[m + 1 + j]);
        assert(pages(disk, children[m + 1 + i] as int, hc).disjoint(
            pages(disk, children[m + 1 + j] as int, hc),
        ));
    }
}

/// Separators and children that are ready, cut at the separator `m`, are
/// ready as two nodes that the separator parts; no page belongs to both; and
/// each key has the value that its side gives it.
#[verifier::rlimit(60)]
pub proof fn lemma_ready_split(
    pre: Pager,
    cur: Pager,
    o: int,
    h: nat,
    keys: Seq<Key>,
    children: Seq<usize>,
    hc: nat,
    lo: Option<Key>,
    hi: Option<Key>,
    fq: Seq<usize>,
    m: int,
)
    requires
        ready(pre, cur, o, h, keys, children, hc, lo, hi, fq),
        0 <= m < keys.len(),
    ensures
        above(lo, keys[m]),
        below(keys[m], hi),
        key_storable(keys[m]),
        ready(
            pre,
            cur,
            o,
            h,
            keys.subrange(0, m),
            children.subrange(0, m + 1),
            hc,
            lo,
            Some(keys[m]),
            fq,
        ),
        ready(
            pre,
            cur,
            o,
            h,
            keys.subrange(m + 1, keys.len() as int),
            children.subrange(m + 1, children.len() as int),
            hc,
            Some(keys[m]),
            hi,
            fq,
        ),
        forall|i: int, j: int|
            0 <= i <= m && m + 1 <= j < children.len() ==> pages(
                cur.disk(),
                #[trigger] children[i] as int,
                hc,
            ).disjoint(pages(cur.disk(), #[trigger] children[j] as int, hc)),
        forall|k: Key| #[trigger]
            lookup_under(cur.disk(), keys, children, hc, k) == if key_lt(k, keys[m]) {
                lookup_under(cur.disk(), keys.subrange(0, m), children.subrange(0, m + 1), hc, k)
            } else {
                lookup_under(
                    cur.disk(),
                    keys.subrange(m + 1, keys.len() as int),
                    children.subrange(m + 1, children.len() as int),
                    hc,
                    k,
                )
            },
{
    reveal(ready);
    let lc = children.subrange(0, m + 1);
    let rc = children.subrange(m + 1, children.len() as int);
    lemma_split_separators(keys, lo, hi, m);
    lemma_split_left(cur.disk(), keys, children, hc, lo, hi, m);
    lemma_split_right(cur.disk(), keys, children, hc, lo, hi, m);
    assert forall|k: Key| #[trigger]
        lookup_under(cur.disk(), keys, children, hc, k) == if key_lt(k, keys[m]) {
            lookup_under(cur.disk(), keys.subrange(0, m), children.subrange(0, m + 1), hc, k)
        } else {
            lookup_under(
                cur.disk(),
                keys.subrange(m + 1, keys.len() as int),
                children.subrange(m + 1, children.len() as int),
                hc,
                k,
            )
        } by {
        lemma_split_lookup(cur.disk(), keys, children, hc, m, k);
    }
    assert forall|i: int| 0 <= i < lc.len() implies settled(
        pre,
        cur,
        o,
        h,
        #[trigger] lc[i] as int,
        hc,
        fq,
    ) by {
        assert(lc[i] == children[i]);
    }
    assert forall|i: int| 0 <= i < rc.len() implies settled(
        pre,
        cur,
        o,
        h,
        #[trigger] rc[i] as int,
        hc,
        fq,
    ) by {
        assert(rc[i] == children[m + 1 + i]);
    }
}

/// A tree that is settled is settled when the root of the old tree is to
/// be given back too.
pub proof fn lemma_settled_more(
    pre: Pager,
    post: Pager,
    o: int,
    h: nat,
    c: int,
    hc: nat,
    fq: Seq<usize>,
    fq2: Seq<usize>,
)
    requires
        settled(pre, post, o, h, c, hc, fq),
        live(pre, o),
        post.wf(),
        forall|x: usize| fq2.contains(x) ==> fq.contains(x) || x == o,
    ensures
        settled(pre, post, o, h, c, hc, fq2),
{
    assert forall|p: int| #[trigger] in_subtree(post.disk(), c, hc, p) implies live(post, p) && ((
    in_subtree(pre.disk(), o, h, p) && p != o) || !live(pre, p)) && !fq2.contains(p as usize) by {
        assert(live(post, p));
        assert(p as usize as int == p);
    }
}

/// Two internal nodes written over the two halves of separators and
/// children that were ready share no page.
#[verifier::rlimit(60)]
pub proof fn lemma_halves_apart(
    pre: Pager,
    mid: Pager,
    post: Pager,
    o: int,
    h: nat,
    n1: int,
    n2: int,
    h2: nat,
    lk: Seq<Key>,
    lc: Seq<usize>,
    rk: Seq<Key>,
    rc: Seq<usize>,
    lo: Option<Key>,
    sep: Key,
    hi: Option<Key>,
    fq: Seq<usize>,
)
    requires
        h2 > 0,
        n1 != n2,
        grew(mid, post),
        !live(mid, n1),
        !live(mid, n2),
        internal_at(post.disk(), n1, lk, lc),
        internal_at(post.disk(), n2, rk, rc),
        ready(pre, mid, o, h, lk, lc, (h2 - 1) as nat, lo, Some(sep), fq),
        ready(pre, mid, o, h, rk, rc, (h2 - 1) as nat, Some(sep), hi, fq),
        forall|i: int, j: int|
            0 <= i < lc.len() && 0 <= j < rc.len() ==> pages(
                mid.disk(),
                #[trigger] lc[i] as int,
                (h2 - 1) as nat,
            ).disjoint(pages(mid.disk(), #[trigger] rc[j] as int, (h2 - 1) as nat)),
    ensures
        pages(post.disk(), n1, h2).disjoint(pages(post.disk(), n2, h2)),
{
    reveal(ready);
    let hc = (h2 - 1) as nat;
    lemma_ready_grew(pre, mid, post, o, h, lk, lc, hc, lo, Some(sep), fq);
    lemma_ready_grew(pre, mid, post, o, h, rk, rc, hc, Some(sep), hi, fq);
    let kids1 = node_at(post.disk(), n1)->Some_0.kind->Internal_children;
    let kids2 = node_at(post.disk(), n2)->Some_0.kind->Internal_children;
    assert(kids1 == lc && kids2 == rc);
    assert forall|p: int|
        !(pages(post.disk(), n1, h2).contains(p) && pages(post.disk(), n2, h2).contains(p)) by {
        if pages(post.disk(), n1, h2).contains(p) && pages(post.disk(), n2, h2).contains(p) {
            assert(in_subtree(post.disk(), n1, h2, p));
            assert(in_subtree(post.disk(), n2, h2, p));
            if p == n1 {
                let j = choose|j: int|
                    0 <= j < kids2.len() && in_subtree(post.disk(), #[trigger] kids2[j] as int, hc, p);
                assert(pages(post.disk(), rc[j] as int, hc).contains(p));
                assert(pages(mid.disk(), rc[j] as int, hc).contains(p));
                assert(settled(pre, mid, o, h, rc[j] as int, hc, fq));
                assert(in_subtree(mid.disk(), rc[j] as int, hc, p));
            } else if p == n2 {
                let i = choose|i: int|
                    0 <= i < kids1.len() && in_subtree(post.disk(), #[trigger] kids1[i] as int, hc, p);
                assert(pages(post.disk(), lc[i] as int, hc).contains(p));
                assert(pages(mid.disk(), lc[i] as int, hc).contains(p));
                assert(settled(pre, mid, o, h, lc[i] as int, hc, fq));
                assert(in_subtree(mid.disk(), lc[i] as int, hc, p));
            } else {
                let i = choose|i: int|
                    0 <= i < kids1.len() && in_subtree(post.disk(), #[trigger] kids1[i] as int, hc, p);
                let j = choose|j: int|
                    0 <= j < kids2.len() && in_subtree(post.disk(), #[trigger] kids2[j] as int, hc, p);
                assert(pages(post.disk(), lc[i] as int, hc).contains(p));
                assert(pages(post.disk(), rc[j] as int, hc).contains(p));
                assert(pages(mid.disk(), lc[i] as int, hc).disjoint(
                    pages(mid.disk(), rc[j] as int, hc),
                ));
            }
        }
    }
}

/// The value that two trees which `m` parts give to `k`.
pub open spec fn split_lookup(disk: Disk, m: Key, first: int, second: int, h: nat, k: Key) -> Option<
    u64,
> {
    if key_lt(k, m) {
        lookup(disk, first, h, k)
    } else {
        lookup(disk, second, h, k)
    }
}

/// The pages to give back that are pages of the tree of a child are pages
/// of the tree of the node.
pub proof fn lemma_from_tree_up(disk: Disk, o: int, h: nat, lo: Option<Key>, hi: Option<Key>, idx: int, fq: Seq<usize>)
    requires
        subtree(disk, o, h, lo, hi),
        node_at(disk, o)->Some_0.kind is Internal,
        0 <= idx < node_at(disk, o)->Some_0.kind->Internal_children.len(),
        from_tree(
            disk,
            node_at(disk, o)->Some_0.kind->Internal_children[idx] as int,
            (h - 1) as nat,
            fq,
        ),
    ensures
        from_tree(disk, o, h, fq),
{
    let children = node_at(disk, o)->Some_0.kind->Internal_children;
    assert forall|i: int| 0 <= i < fq.len() implies in_subtree(disk, o, h, #[trigger] fq[i] as int) by {
        assert(in_subtree(disk, children[idx] as int, (h - 1) as nat, fq[i] as int));
    }
}

/// Whether two nodes were written, one after the other, over the halves of
/// separators and children that were ready, cut at `m`.
#[verifier::opaque]
pub open spec fn halves_written(
    pre: Pager,
    mid: Pager,
    pa: Pager,
    pb: Pager,
    o: int,
    h: nat,
    h2: nat,
    lo: Option<Key>,
    hi: Option<Key>,
    keys: Seq<Key>,
    kids: Seq<usize>,
    m: int,
    n1: Offset,
    n2: Offset,
    fq: Seq<usize>,
    fq2: Seq<usize>,
) -> bool {
    &&& h2 > 0
    &&& live(pre, o)
    &&& grew(pre, mid)
    &&& grew(mid, pa)
    &&& grew(pa, pb)
    &&& ready(pre, mid, o, h, keys, kids, (h2 - 1) as nat, lo, hi, fq)
    &&& forall|x: usize|
        fq.contains(x) ==> live(pre, x as int) && in_subtree(pre.disk(), o, h, x as int)
    &&& 0 <= m < keys.len()
    &&& !live(mid, n1.0 as int)
    &&& live(pa, n1.0 as int)
    &&& internal_at(pa.disk(), n1.0 as int, keys.subrange(0, m), kids.subrange(0, m + 1))
    &&& !live(pa, n2.0 as int)
    &&& live(pb, n2.0 as int)
    &&& internal_at(
        pb.disk(),
        n2.0 as int,
        keys.subrange(m + 1, keys.len() as int),
        kids.subrange(m + 1, kids.len() as int),
    )
    &&& forall|x: usize| fq2.contains(x) ==> fq.contains(x) || x == o
}

/// Two nodes written over the halves of separators and children that were
/// ready have replaced the old tree, within the bounds that the separator at
/// the cut gives them, and give each key what the children of their half
/// gave it.
#[verifier::rlimit(60)]
pub proof fn lemma_halves_replaced(
    pre: Pager,
    mid: Pager,
    pa: Pager,
    pb: Pager,
    o: int,
    h: nat,
    h2: nat,
    lo: Option<Key>,
    hi: Option<Key>,
    keys: Seq<Key>,
    kids: Seq<usize>,
    m: int,
    n1: Offset,
    n2: Offset,
    fq: Seq<usize>,
    fq2: Seq<usize>,
)
    requires
        halves_written(pre, mid, pa, pb, o, h, h2, lo, hi, keys, kids, m, n1, n2, fq, fq2),
    ensures
        key_storable(keys[m]),
        above(lo, keys[m]),
        below(keys[m], hi),
        replaced(pre, pb, o, h, n1.0 as int, h2, lo, Some(keys[m]), fq2),
        replaced(pre, pb, o, h, n2.0 as int, h2, Some(keys[m]), hi, fq2),
        forall|k: Key| #[trigger]
            lookup(pb.disk(), n1.0 as int, h2, k) == lookup_under(
                mid.disk(),
                keys.subrange(0, m),
                kids.subrange(0, m + 1),
                (h2 - 1) as nat,
                k,
            ),
        forall|k: Key| #[trigger]
            lookup(pb.disk(), n2.0 as int, h2, k) == lookup_under(
                mid.disk(),
                keys.subrange(m + 1, keys.len() as int),
                kids.subrange(m + 1, kids.len() as int),
                (h2 - 1) as nat,
                k,
            ),
{
    reveal(halves_written);
    let hc = (h2 - 1) as nat;
    let sep = keys[m];
    let lk = keys.subrange(0, m);
    let lc = kids.subrange(0, m + 1);
    let rk = keys.subrange(m + 1, keys.len() as int);
    let rc = kids.subrange(m + 1, kids.len() as int);
    let f = n1.0 as int;
    let s = n2.0 as int;
    lemma_ready_split(pre, mid, o, h, keys, kids, hc, lo, hi, fq, m);
    lemma_assemble(pre, mid, pa, o, h, f, h2, lk, lc, lo, Some(sep), fq, fq);
    lemma_replaced_grew(pre, pa, pb, o, h, f, h2, lo, Some(sep), fq);
    lemma_settled_more(pre, pb, o, h, f, h2, fq, fq2);
    lemma_ready_grew(pre, mid, pa, o, h, rk, rc, hc, Some(sep), hi, fq);
    lemma_grew_transitive(pre, mid, pa);
    lemma_assemble(pre, pa, pb, o, h, s, h2, rk, rc, Some(sep), hi, fq, fq2);
    assert forall|k: Key| #[trigger]
        lookup(pb.disk(), f, h2, k) == lookup_under(mid.disk(), lk, lc, hc, k) by {
        assert(lookup(pb.disk(), f, h2, k) == lookup(pa.disk(), f, h2, k));
        assert(lookup(pa.disk(), f, h2, k) == lookup_under(mid.disk(), lk, lc, hc, k));
    }
    assert forall|k: Key| #[trigger]
        lookup(pb.disk(), s, h2, k) == lookup_under(mid.disk(), rk, rc, hc, k) by {
        assert(lookup(pb.disk(), s, h2, k) == lookup_under(pa.disk(), rk, rc, hc, k));
        assert(lookup_under(pa.disk(), rk, rc, hc, k) == lookup_under(mid.disk(), rk, rc, hc, k));
    }
}

/// Two nodes written over the halves of separators and children that were
/// ready share no page.
#[verifier::rlimit(60)]
pub proof fn lemma_halves_disjoint(
    pre: Pager,
    mid: Pager,
    pa: Pager,
    pb: Pager,
    o: int,
    h: nat,
    h2: nat,
    lo: Option<Key>,
    hi: Option<Key>,
    keys: Seq<Key>,
    kids: Seq<usize>,
    m: int,
    n1: Offset,
    n2: Offset,
    fq: Seq<usize>,
    fq2: Seq<usize>,
)
    requires
        halves_written(pre, mid, pa, pb, o, h, h2, lo, hi, keys, kids, m, n1, n2, fq, fq2),
    ensures
        pages(pb.disk(), n1.0 as int, h2).disjoint(pages(pb.disk(), n2.0 as int, h2)),
{
    reveal(ready);
    reveal(halves_written);
    let hc = (h2 - 1) as nat;
    let sep = keys[m];
    let lk = keys.subrange(0, m);
    let lc = kids.subrange(0, m + 1);
    let rk = keys.subrange(m + 1, keys.len() as int);
    let rc = kids.subrange(m + 1, kids.len() as int);
    let f = n1.0 as int;
    let s = n2.0 as int;
    lemma_ready_split(pre, mid, o, h, keys, kids, hc, lo, hi, fq, m);
    assert(f != s);
    assert(internal_at(pb.disk(), f, lk, lc)) by {
        assert(page_at(pb.disk(), f) == page_at(pa.disk(), f));
    }
    assert(!live(mid, s)) by {
        if live(mid, s) {
            assert(live(pa, s));
        }
    }
    lemma_grew_transitive(mid, pa, pb);
    assert forall|i: int, j: int| 0 <= i < lc.len() && 0 <= j < rc.len() implies pages(
        mid.disk(),
        #[trigger] lc[i] as int,
        hc,
    ).disjoint(pages(mid.disk(), #[trigger] rc[j] as int, hc)) by {
        assert(lc[i] == kids[i] && rc[j] == kids[m + 1 + j]);
        assert(pages(mid.disk(), kids[i] as int, hc).disjoint(
            pages(mid.disk(), kids[m + 1 + j] as int, hc),
        ));
    }
    lemma_halves_apart(pre, mid, pb, o, h, f, s, h2, lk, lc, rk, rc, lo, sep, hi, fq);
}

/// Pages of a tree to give back, and the root of the tree with them, are
/// pages of the tree.
pub proof fn lemma_from_tree_add(disk: Disk, o: int, h: nat, fq: Seq<usize>, fq2: Seq<usize>)
    requires
        from_tree(disk, o, h, fq),
        forall|x: usize| fq2.contains(x) <==> fq.contains(x) || x == o,
    ensures
        from_tree(disk, o, h, fq2),
{
    assert(in_subtree(disk, o, h, o));
    assert forall|i: int| 0 <= i < fq2.len() implies in_subtree(disk, o, h, #[trigger] fq2[i] as int) by {
        assert(fq2.contains(fq2[i]));
        if fq2[i] != o {
            assert(fq.contains(fq2[i]));
            let j = choose|j: int| 0 <= j < fq.len() && fq[j] == fq2[i];
            assert(in_subtree(disk, o, h, fq[j] as int));
        }
    }
}

} // verus!
