//! What a deletion will do to the tree, told from the tree alone: which
//! nodes it joins or cuts anew on the way up from the leaf, and whether
//! each node it has to write fits in a page.

use crate::delete::{DeleteCOWStatus, leaf_for};
use crate::fit::{lemma_keys_space_bytes, lemma_pairs_space_bytes};
use crate::key::{Key, key_lt, lemma_key_lt_irreflexive};
use crate::node::{keys_space, KindView, pairs_space};
use crate::page_layout::{
    INTERNAL_HEADER_SIZE, LEAF_HEADER_SIZE, PAGE_SIZE, PTR_SIZE, UNDERFLOW_SPACE, VALUE_SIZE,
};
use crate::pager::{Disk, is_page, page_at};
use crate::split::{is_median, key_bytes, pair_keys};
use crate::tree::{
    child_hi, child_lo, in_subtree, lemma_route_range, node_at, pairs_sorted, route, space_at,
    subtree,
};
use vstd::prelude::*;

verus! {

/// What the deletion of a key hands up from a node: the node was written
/// anew; or it underflows and is handed up with these keys; or a node that
/// would have to be written does not fit in a page, or has no neighbour.
pub enum Handed {
    Written,
    Under(Seq<Key>),
    Stuck,
}

/// The keys of a node: those of its pairs, or its separators.
pub open spec fn kind_keys(kind: KindView) -> Seq<Key> {
    match kind {
        KindView::Leaf { next, previous, pairs } => pair_keys(pairs),
        KindView::Internal { keys, children } => keys,
    }
}

/// The space that a leaf with these keys occupies.
pub open spec fn leaf_space(keys: Seq<Key>) -> int {
    LEAF_HEADER_SIZE + keys_space(keys) + VALUE_SIZE * keys.len() + 1
}

/// The space that an internal node with these separators occupies.
pub open spec fn internal_space(keys: Seq<Key>) -> int {
    INTERNAL_HEADER_SIZE + keys_space(keys) + PTR_SIZE * (keys.len() + 1) + 1
}

/// Where `keys` are cut in two by their bytes.
pub open spec fn median_of(keys: Seq<Key>) -> int {
    choose|m: int| is_median(keys, m)
}

/// Where the pair of `k` stands among `pairs`.
pub open spec fn place(pairs: Seq<(Key, u64)>, k: Key) -> int {
    choose|i: int| 0 <= i < pairs.len() && pairs[i].0 == k
}

/// What a node with the separators `keys` hands up after its children `si`
/// and `si + 1` were merged: it is written without the separator between
/// them where it still occupies the space that a node must, and handed up
/// where it does not.
pub open spec fn merged_up(keys: Seq<Key>, si: int) -> Handed {
    if internal_space(keys.remove(si)) < UNDERFLOW_SPACE {
        Handed::Under(keys.remove(si))
    } else {
        Handed::Written
    }
}

/// What a node with the separators `keys` hands up after the entries of its
/// children `si` and `si + 1` were shared out anew, with `m` to part them:
/// it is written with `m` in the place of the separator between them where
/// it fits in a page.
pub open spec fn shared_up(keys: Seq<Key>, si: int, m: Key) -> Handed {
    if internal_space(keys.update(si, m)) <= PAGE_SIZE {
        Handed::Written
    } else {
        Handed::Stuck
    }
}

/// What a node with the separators `keys` hands up after its children `si`
/// and `si + 1`, leaves with the keys `left` and `right` of which one
/// underflows, were rebalanced: they are merged where the two occupy less
/// than a page and a header together; else their pairs are cut in two by the
/// bytes of the keys, where each half fits in a page.
pub open spec fn leaves_plan(keys: Seq<Key>, si: int, left: Seq<Key>, right: Seq<Key>) -> Handed {
    let all = left + right;
    if leaf_space(left) + leaf_space(right) < PAGE_SIZE + LEAF_HEADER_SIZE {
        merged_up(keys, si)
    } else {
        let m = median_of(all);
        if leaf_space(all.subrange(0, m)) <= PAGE_SIZE && leaf_space(
            all.subrange(m, all.len() as int),
        ) <= PAGE_SIZE {
            shared_up(keys, si, all[m])
        } else {
            Handed::Stuck
        }
    }
}

/// What a node with the separators `keys` hands up after its children `si`
/// and `si + 1`, internal nodes with the separators `left` and `right` of
/// which one underflows, were rebalanced: they are merged, with the
/// separator between them, where the two occupy less than a page and a
/// header together and the merged node fits in a page; else their separators
/// are cut in two by their bytes, where each half fits in a page.
pub open spec fn internals_plan(keys: Seq<Key>, si: int, left: Seq<Key>, right: Seq<Key>) -> Handed {
    let all = left + seq![keys[si]] + right;
    if internal_space(left) + internal_space(right) < PAGE_SIZE + INTERNAL_HEADER_SIZE {
        if internal_space(all) <= PAGE_SIZE {
            merged_up(keys, si)
        } else {
            Handed::Stuck
        }
    } else {
        let m = median_of(all);
        if internal_space(all.subrange(0, m)) <= PAGE_SIZE && internal_space(
            all.subrange(m + 1, all.len() as int),
        ) <= PAGE_SIZE {
            shared_up(keys, si, all[m])
        } else {
            Handed::Stuck
        }
    }
}

/// What a node with the separators `keys` hands up after its child `ci` was
/// handed up with the keys `under`: the child is rebalanced with the child
/// before it, or, for the first child, the one after it, which has the keys
/// `sibling`. A node with one child is stuck.
pub open spec fn rebalance_plan(
    keys: Seq<Key>,
    ci: int,
    under: Seq<Key>,
    sibling: Seq<Key>,
    leaves: bool,
) -> Handed {
    if keys.len() < 1 {
        Handed::Stuck
    } else if ci == 0 {
        if leaves {
            leaves_plan(keys, 0, under, sibling)
        } else {
            internals_plan(keys, 0, under, sibling)
        }
    } else {
        if leaves {
            leaves_plan(keys, ci - 1, sibling, under)
        } else {
            internals_plan(keys, ci - 1, sibling, under)
        }
    }
}

/// The child that is rebalanced with the child `ci` where that underflows.
pub open spec fn neighbour(ci: int) -> int {
    if ci == 0 {
        1
    } else {
        ci - 1
    }
}

/// What the deletion of `k` hands up from the node stored at `o`, the root
/// of a tree of height `h` that holds `k`.
pub open spec fn plan(disk: Disk, o: int, h: nat, k: Key) -> Handed
    decreases h,
{
    match node_at(disk, o) {
        None => Handed::Stuck,
        Some(node) => match node.kind {
            KindView::Leaf { next, previous, pairs } => {
                let after = pair_keys(pairs.remove(place(pairs, k)));
                if leaf_space(after) < UNDERFLOW_SPACE {
                    Handed::Under(after)
                } else {
                    Handed::Written
                }
            },
            KindView::Internal { keys, children } => if h == 0 {
                Handed::Stuck
            } else {
                let ci = route(keys, k);
                match plan(disk, children[ci] as int, (h - 1) as nat, k) {
                    Handed::Written => Handed::Written,
                    Handed::Stuck => Handed::Stuck,
                    Handed::Under(under) => rebalance_plan(
                        keys,
                        ci,
                        under,
                        kind_keys(node_at(disk, children[neighbour(ci)] as int)->Some_0.kind),
                        h == 1,
                    ),
                }
            },
        },
    }
}

/// Whether `status` is what `handed` foretells: an offset where the node
/// was to be written, the node with its keys where it was to be handed up.
pub open spec fn told(status: DeleteCOWStatus, handed: Handed) -> bool {
    match status {
        DeleteCOWStatus::NewOffset(_) => handed is Written,
        DeleteCOWStatus::DidUnderflow(node) => handed == Handed::Under(kind_keys(node@.kind)),
    }
}

/// Keys are cut in two by their bytes at one place only.
pub proof fn lemma_median_one(keys: Seq<Key>, m: int)
    requires
        is_median(keys, m),
    ensures
        median_of(keys) == m,
{
    let n = median_of(keys);
    assert(is_median(keys, n));
    if n < m {
        assert(key_bytes(keys, n + 1) <= key_bytes(keys, keys.len() as int) / 2 + 1);
    }
    if m < n {
        assert(key_bytes(keys, m + 1) <= key_bytes(keys, keys.len() as int) / 2 + 1);
    }
}

/// Among pairs in order, the pair of a key stands at one place only.
pub proof fn lemma_place_one(pairs: Seq<(Key, u64)>, k: Key, i: int)
    requires
        pairs_sorted(pairs),
        0 <= i < pairs.len(),
        pairs[i].0 == k,
    ensures
        place(pairs, k) == i,
{
    let j = place(pairs, k);
    assert(0 <= j < pairs.len() && pairs[j].0 == k);
    if j < i {
        assert(key_lt(pairs[j].0, pairs[i].0));
        lemma_key_lt_irreflexive(k);
    }
    if i < j {
        assert(key_lt(pairs[i].0, pairs[j].0));
        lemma_key_lt_irreflexive(k);
    }
}

/// The keys of pairs take the space of the pairs but for the values.
pub proof fn lemma_leaf_space(pairs: Seq<(Key, u64)>)
    ensures
        leaf_space(pair_keys(pairs)) == LEAF_HEADER_SIZE + pairs_space(pairs) + 1,
{
    lemma_pairs_space_bytes(pairs);
    lemma_keys_space_bytes(pair_keys(pairs));
}

/// The key that the insertion of `k` promotes from the node stored at `o`,
/// the root of a tree of height `h`: none where the node has room for what it
/// is to hold. A leaf has room where the pair of `k` fits into the page with
/// its pairs; else it is cut in two by the bytes of its keys, and the key at
/// the cut is promoted. An internal node has to hold what its child
/// promotes, if that promotes a key; it has room where that key, an offset
/// and two bytes more fit into the page; else it is cut in two with that key
/// among its separators, and the separator at the cut is promoted.
pub open spec fn promoted(disk: Disk, o: int, h: nat, k: Key) -> Option<Key>
    decreases h,
{
    match node_at(disk, o) {
        None => None,
        Some(node) => match node.kind {
            KindView::Leaf { next, previous, pairs } => if space_at(disk, o) + 1 + k.len()
                + VALUE_SIZE > PAGE_SIZE {
                Some(pair_keys(pairs)[median_of(pair_keys(pairs))])
            } else {
                None
            },
            KindView::Internal { keys, children } => if h == 0 {
                None
            } else {
                match promoted(disk, children[route(keys, k)] as int, (h - 1) as nat, k) {
                    None => None,
                    Some(m) => cut_with(keys, route(keys, k), m, space_at(disk, o)),
                }
            },
        },
    }
}

/// The separator that an internal node with the separators `keys`, which
/// occupies `space`, promotes where it has to hold `m` at `idx`: none where
/// `m`, an offset and two bytes more fit into the page.
pub open spec fn cut_with(keys: Seq<Key>, idx: int, m: Key, space: int) -> Option<Key> {
    if space + PTR_SIZE + m.len() + 2 > PAGE_SIZE {
        Some(keys.insert(idx, m)[median_of(keys.insert(idx, m))])
    } else {
        None
    }
}

/// Whether the halves of the leaf stored at `o`, where the insertion of
/// `k` cuts it in two, each occupy the space that a node must, with the pair
/// of `k` in its half: the first where `k` comes before the promoted key.
pub open spec fn leaf_cut_snug(disk: Disk, o: int, k: Key) -> bool {
    let keys = pair_keys(node_at(disk, o)->Some_0.kind->Leaf_pairs);
    let m = median_of(keys);
    let slot = 1 + k.len() + VALUE_SIZE;
    promoted(disk, o, 0, k) is Some ==> leaf_space(keys.subrange(0, m)) + (if key_lt(k, keys[m]) {
        slot
    } else {
        0
    }) >= UNDERFLOW_SPACE && leaf_space(keys.subrange(m, keys.len() as int)) + (if key_lt(
        k,
        keys[m],
    ) {
        0
    } else {
        slot
    }) >= UNDERFLOW_SPACE
}

/// Whether the halves of an internal node with the separators `keys`, which
/// occupies `space`, each occupy the space that a node must where the node
/// is cut in two to hold `m` at `idx`.
pub open spec fn internal_cut_snug(keys: Seq<Key>, idx: int, m: Key, space: int) -> bool {
    let more = keys.insert(idx, m);
    let cut = median_of(more);
    cut_with(keys, idx, m, space) is Some ==> internal_space(more.subrange(0, cut))
        >= UNDERFLOW_SPACE && internal_space(more.subrange(cut + 1, more.len() as int))
        >= UNDERFLOW_SPACE
}

/// Whether every node that the insertion of `k` cuts in two, on the way up
/// from the leaf to the node stored at `o`, is cut into halves that each
/// occupy the space that a node must.
pub open spec fn insert_snug(disk: Disk, o: int, h: nat, k: Key) -> bool
    decreases h,
{
    match node_at(disk, o) {
        None => true,
        Some(node) => match node.kind {
            KindView::Leaf { next, previous, pairs } => leaf_cut_snug(disk, o, k),
            KindView::Internal { keys, children } => h > 0 ==> {
                let c = children[route(keys, k)] as int;
                &&& insert_snug(disk, c, (h - 1) as nat, k)
                &&& match promoted(disk, c, (h - 1) as nat, k) {
                    None => true,
                    Some(m) => internal_cut_snug(keys, route(keys, k), m, space_at(disk, o)),
                }
            },
        },
    }
}

/// The keys of two neighbours as they are joined: those of leaves one
/// after the other, those of internal nodes with the separator between them.
pub open spec fn joined(keys: Seq<Key>, si: int, left: Seq<Key>, right: Seq<Key>, leaves: bool) -> Seq<
    Key,
> {
    if leaves {
        left + right
    } else {
        left + seq![keys[si]] + right
    }
}

/// Whether two neighbours are merged: they occupy less than a page and a
/// header together.
pub open spec fn merges(left: Seq<Key>, right: Seq<Key>, leaves: bool) -> bool {
    if leaves {
        leaf_space(left) + leaf_space(right) < PAGE_SIZE + LEAF_HEADER_SIZE
    } else {
        internal_space(left) + internal_space(right) < PAGE_SIZE + INTERNAL_HEADER_SIZE
    }
}

/// The space that a node with the separators `keys` occupies after its
/// children `si` and `si + 1` were rebalanced: without the separator between
/// them where they were merged, with the key at the cut in its place where
/// their entries were shared out anew.
pub open spec fn up_space(keys: Seq<Key>, si: int, left: Seq<Key>, right: Seq<Key>, leaves: bool) -> int {
    let all = joined(keys, si, left, right, leaves);
    if merges(left, right, leaves) {
        internal_space(keys.remove(si))
    } else {
        internal_space(keys.update(si, all[median_of(all)]))
    }
}

/// Whether the two nodes between which the entries of two neighbours are
/// shared out anew, where they are not merged, each occupy the space that a
/// node must.
pub open spec fn halves_snug(keys: Seq<Key>, si: int, left: Seq<Key>, right: Seq<Key>, leaves: bool) -> bool {
    let all = joined(keys, si, left, right, leaves);
    let m = median_of(all);
    merges(left, right, leaves) || if leaves {
        leaf_space(all.subrange(0, m)) >= UNDERFLOW_SPACE && leaf_space(
            all.subrange(m, all.len() as int),
        ) >= UNDERFLOW_SPACE
    } else {
        internal_space(all.subrange(0, m)) >= UNDERFLOW_SPACE && internal_space(
            all.subrange(m + 1, all.len() as int),
        ) >= UNDERFLOW_SPACE
    }
}

/// `up_space` for the child `ci` that underflows and its neighbour.
pub open spec fn rebalance_space(
    keys: Seq<Key>,
    ci: int,
    under: Seq<Key>,
    sibling: Seq<Key>,
    leaves: bool,
) -> int {
    if ci == 0 {
        up_space(keys, 0, under, sibling, leaves)
    } else {
        up_space(keys, ci - 1, sibling, under, leaves)
    }
}

/// `halves_snug` for the child `ci` that underflows and its neighbour.
pub open spec fn rebalance_snug(
    keys: Seq<Key>,
    ci: int,
    under: Seq<Key>,
    sibling: Seq<Key>,
    leaves: bool,
) -> bool {
    if ci == 0 {
        halves_snug(keys, 0, under, sibling, leaves)
    } else {
        halves_snug(keys, ci - 1, sibling, under, leaves)
    }
}

/// The space that the node occupies which the deletion of `k` writes in the
/// place of the node stored at `o`, where it writes one: a leaf without the
/// pair of `k`; an internal node as it was where its child was written anew,
/// and as `up_space` says where its child was rebalanced.
pub open spec fn after_space(disk: Disk, o: int, h: nat, k: Key) -> int {
    match node_at(disk, o)->Some_0.kind {
        KindView::Leaf { next, previous, pairs } => space_at(disk, o) - (1 + k.len() + VALUE_SIZE),
        KindView::Internal { keys, children } => match plan(
            disk,
            children[route(keys, k)] as int,
            (h - 1) as nat,
            k,
        ) {
            Handed::Written => space_at(disk, o),
            Handed::Stuck => 0,
            Handed::Under(under) => rebalance_space(
                keys,
                route(keys, k),
                under,
                kind_keys(node_at(disk, children[neighbour(route(keys, k))] as int)->Some_0.kind),
                h == 1,
            ),
        },
    }
}

/// Whether every node that the deletion of `k` writes below the node stored
/// at `o` occupies the space that a node must: the node written for a child
/// does, and so do the two between which entries are shared out anew.
pub open spec fn delete_snug(disk: Disk, o: int, h: nat, k: Key) -> bool
    decreases h,
{
    match node_at(disk, o) {
        None => true,
        Some(node) => match node.kind {
            KindView::Leaf { next, previous, pairs } => true,
            KindView::Internal { keys, children } => h > 0 ==> {
                let c = children[route(keys, k)] as int;
                &&& delete_snug(disk, c, (h - 1) as nat, k)
                &&& match plan(disk, c, (h - 1) as nat, k) {
                    Handed::Written => after_space(disk, c, (h - 1) as nat, k) >= UNDERFLOW_SPACE,
                    Handed::Stuck => true,
                    Handed::Under(under) => rebalance_snug(
                        keys,
                        route(keys, k),
                        under,
                        kind_keys(
                            node_at(disk, children[neighbour(route(keys, k))] as int)->Some_0.kind,
                        ),
                        h == 1,
                    ),
                }
            },
        },
    }
}

/// Whether the leaf that the separators lead to for `k` has room for the
/// pair of `k`: the insertion of `k` then cuts no node in two.
pub open spec fn leaf_roomy(disk: Disk, o: int, h: nat, k: Key) -> bool {
    space_at(disk, leaf_for(disk, o, h, k)) + 1 + k.len() + VALUE_SIZE <= PAGE_SIZE
}

/// The separators of a sound tree lead to the same leaf for `k`, which
/// holds what it held, wherever the pages of the tree are what they were.
pub proof fn lemma_leaf_for_frame(
    d1: Disk,
    d2: Disk,
    o: int,
    h: nat,
    lo: Option<Key>,
    hi: Option<Key>,
    k: Key,
)
    requires
        subtree(d1, o, h, lo, hi),
        forall|p: int| #[trigger]
            in_subtree(d1, o, h, p) ==> is_page(d2, p) && page_at(d2, p) == page_at(d1, p),
    ensures
        leaf_for(d2, o, h, k) == leaf_for(d1, o, h, k),
        in_subtree(d1, o, h, leaf_for(d1, o, h, k)),
        page_at(d2, leaf_for(d1, o, h, k)) == page_at(d1, leaf_for(d1, o, h, k)),
    decreases h,
{
    assert(in_subtree(d1, o, h, o));
    if h > 0 {
        match node_at(d1, o)->Some_0.kind {
            KindView::Internal { keys, children } => {
                lemma_route_range(keys, k);
                let i = route(keys, k);
                let c = children[i] as int;
                assert(subtree(d1, c, (h - 1) as nat, child_lo(keys, lo, i), child_hi(keys, hi, i)));
                assert forall|p: int| #[trigger] in_subtree(d1, c, (h - 1) as nat, p) implies is_page(
                    d2,
                    p,
                ) && page_at(d2, p) == page_at(d1, p) by {
                    assert(in_subtree(d1, o, h, p));
                }
                lemma_leaf_for_frame(
                    d1,
                    d2,
                    c,
                    (h - 1) as nat,
                    child_lo(keys, lo, i),
                    child_hi(keys, hi, i),
                    k,
                );
                assert(in_subtree(d1, c, (h - 1) as nat, leaf_for(d1, c, (h - 1) as nat, k)));
            },
            KindView::Leaf { .. } => {},
        }
    }
}

} // verus!
