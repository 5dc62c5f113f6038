//! Taking a key out. The tree is written anew along the way from the root
//! to the leaf of the key; a node that is left with less than the space that a
//! node must occupy is merged with a neighbour or shares its entries out anew
//! with it.

use crate::btree::{
    BTree, find_child, find_pair, lemma_rest_grew, lemma_rest_kept, lemma_sound_grew,
    lemma_view_same, read_node_at, rest_kept, root_of, sound, write_node,
};
use crate::error::Error;
use crate::fit::{
    keys_sized, lemma_full_internal_median, lemma_full_leaf_median, lemma_joined_space,
    lemma_pairs_space_concat,
};
use crate::key::{
    Key, key_le, key_lt, key_of, lemma_key_le_lt, lemma_key_lt_transitive, lemma_key_of_injective,
};
use crate::leaf::{
    leaf_ok, lemma_leaf_ok_remove, lemma_leaf_ok_split, lemma_leaf_subtree, lemma_subtree_leaf,
};
use crate::node::{
    key_storable, keys_space, keys_view, KeyValuePair, KindView, lemma_decode_space,
    lemma_encode_fits, lemma_keys_space_at, lemma_keys_space_nonneg, lemma_pairs_space_at,
    lemma_pairs_space_nonneg, Node, node_space, NodeKind, offsets_view, pairs_space, pairs_view,
    storable,
};
use crate::occupancy::{
    all_snug, even_at, even_keys, filled, fresh_fit, fresh_snug, lemma_even_concat,
    lemma_even_internal_halves, lemma_even_leaf_halves, lemma_even_part, lemma_even_remove,
    lemma_even_update, lemma_filled_after, lemma_filled_grew, lemma_fresh_more, lemma_fresh_one,
    lemma_snug_after, lemma_snug_child, lemma_snug_grew, lemma_snug_more, snug_at, snug_tree,
    well_filled,
};
use crate::outcome::{
    after_space, delete_snug, halves_snug, internal_space, internals_plan, kind_keys, leaf_space,
    leaves_plan, lemma_leaf_space, lemma_median_one, lemma_place_one, median_of, merged_up,
    neighbour, plan, rebalance_plan, rebalance_snug, rebalance_space, shared_up, told, up_space,
};
use crate::page_layout::{
    INTERNAL_HEADER_SIZE, KEY_MAX_SIZE, LEAF_HEADER_SIZE, PAGE_SIZE, PTR_SIZE, UNDERFLOW_SPACE,
    VALUE_SIZE,
};
use crate::pager::{Disk, FreeQueue, Offset, page_at, Pager};
use crate::rebalance::{
    from_pair, kept, lemma_kept_apart, lemma_node_kept, lemma_pair_fq, lemma_ready_concat,
    lemma_ready_kept, lemma_ready_merge, lemma_ready_redistribute, pair_below,
};
use crate::reclaim::{
    accounted, accounted_but, covered, in_any, lemma_account_node, lemma_cover_merged,
    lemma_cover_one, lemma_cover_shared, lemma_node_holds, lemma_nodes_hold, lemma_pair_joined,
    lemma_reclaimed, pair_covered,
};
use crate::split::{find_median_key_idx, lemma_key_bytes_bound, pair_keys, split_key_value_pairs};
use crate::tree::{
    above, all_live, at_or_above, below, child_hi, child_lo, children_ok, from_tree, grew,
    halves_written, in_subtree, internal_at, lemma_assemble, lemma_from_tree_add,
    lemma_from_tree_up, lemma_grew_transitive, lemma_halves_disjoint, lemma_halves_replaced,
    lemma_pairs_concat, lemma_pairs_get_at, lemma_pairs_remove, lemma_ready_old, lemma_ready_parts,
    lemma_ready_replace, lemma_ready_split, lemma_route_props, lemma_settled_more,
    lemma_subtree_internal, live, lookup, lookup_under, node_at, pages, pairs_get, ready, replaced,
    room, route, separators_ok, settled, space_at, split_lookup, subtree,
};
use vstd::prelude::*;

verus! {

/// What rewriting a tree for a deletion gives back to the node above.
pub enum DeleteCOWStatus {
    /// The tree was written anew and is stored at this offset.
    NewOffset(Offset),
    /// The root of the tree now occupies less than the space below which a
    /// node underflows. It is handed up as it is, not written: the node above
    /// is to merge it with a neighbour or to share entries between the two.
    DidUnderflow(Node),
}

/// The value of `k` once `key` is taken out of the tree of height `h`
/// stored at `o`.
pub open spec fn without(disk: Disk, o: int, h: nat, key: Key, k: Key) -> Option<u64> {
    if k == key {
        None
    } else {
        lookup(disk, o, h, k)
    }
}

/// Whether `status` is what the deletion of `key` from the tree of height
/// `h` stored at `o` in `pre` has to give: a tree that has replaced the old
/// one, or a root not yet written whose entries are sound and ready; and
/// either gives `key` no value and every other key what the old tree gave
/// it.
#[verifier::opaque]
pub open spec fn deleted(
    pre: Pager,
    post: Pager,
    o: int,
    h: nat,
    lo: Option<Key>,
    hi: Option<Key>,
    key: Key,
    fq: Seq<usize>,
    status: DeleteCOWStatus,
) -> bool {
    match status {
        DeleteCOWStatus::NewOffset(n) => {
            &&& replaced(pre, post, o, h, n.0 as int, h, lo, hi, fq)
            &&& forall|k: Key| #[trigger]
                lookup(post.disk(), n.0 as int, h, k) == without(pre.disk(), o, h, key, k)
        },
        DeleteCOWStatus::DidUnderflow(node) => match node@.kind {
            KindView::Leaf { next, previous, pairs } => {
                &&& h == 0
                &&& leaf_ok(pairs, lo, hi)
                &&& pairs.len() <= PAGE_SIZE
                &&& next != Some(0usize)
                &&& previous != Some(0usize)
                &&& !fq.contains(o as usize)
                &&& forall|k: Key| #[trigger]
                    pairs_get(pairs, k) == without(pre.disk(), o, h, key, k)
            },
            KindView::Internal { keys, children } => {
                &&& h > 0
                &&& ready(pre, post, o, h, keys, children, (h - 1) as nat, lo, hi, fq)
                &&& keys.len() <= PAGE_SIZE
                &&& !fq.contains(o as usize)
                &&& forall|k: Key| #[trigger]
                    lookup_under(post.disk(), keys, children, (h - 1) as nat, k) == without(
                        pre.disk(),
                        o,
                        h,
                        key,
                        k,
                    )
            },
        },
    }
}

/// The leaf that the separators lead to for `k` in the tree of height `h`
/// stored at `o`.
pub open spec fn leaf_for(disk: Disk, o: int, h: nat, k: Key) -> int
    decreases h,
{
    if h == 0 {
        o
    } else {
        match node_at(disk, o) {
            Some(node) => match node.kind {
                KindView::Internal { keys, children } => if route(keys, k) < children.len() {
                    leaf_for(disk, children[route(keys, k)] as int, (h - 1) as nat, k)
                } else {
                    o
                },
                KindView::Leaf { .. } => o,
            },
            None => o,
        }
    }
}

/// Whether the leaf that the separators lead to for `k` still occupies,
/// with the pair of `k` taken out, the space that a node must occupy: the
/// deletion of `k` then rewrites the way to that leaf and nothing else.
pub open spec fn leaf_stays(disk: Disk, o: int, h: nat, k: Key) -> bool {
    space_at(disk, leaf_for(disk, o, h, k)) - (1 + k.len() + VALUE_SIZE) >= UNDERFLOW_SPACE
}

/// The children of a node; none for a leaf.
pub open spec fn kids_of(kind: KindView) -> Seq<usize> {
    match kind {
        KindView::Leaf { next, previous, pairs } => Seq::empty(),
        KindView::Internal { keys, children } => children,
    }
}

/// Whether every page of the tree of height `h` stored at `o` in `pre` is
/// accounted for by what the deletion gave: each is among the pages `fq` to
/// give back or a page of the tree that was written; where the node was
/// handed up unwritten, each but the old root is among the pages to give
/// back or a page of a tree below the node.
pub open spec fn reclaimed_del(
    pre: Disk,
    o: int,
    h: nat,
    post: Disk,
    fq: Seq<usize>,
    status: DeleteCOWStatus,
) -> bool {
    match status {
        DeleteCOWStatus::NewOffset(n) => accounted(pre, o, h, post, n.0 as int, h, fq),
        DeleteCOWStatus::DidUnderflow(node) => covered(
            pre,
            o,
            h,
            post,
            kids_of(node@.kind),
            (h - 1) as nat,
            fq,
        ),
    }
}

/// Whether a tree that a deletion gave back is stored in a page that was
/// not in use before, and the page of the old root of the tree is among the
/// pages to give back.
pub open spec fn written_anew(pre: Pager, fq: Seq<usize>, o: usize, status: DeleteCOWStatus) -> bool {
    match status {
        DeleteCOWStatus::NewOffset(n) => fq.contains(o) && !live(pre, n.0 as int),
        DeleteCOWStatus::DidUnderflow(_) => true,
    }
}

/// The page that a deletion may have left with less than the space that a
/// node must occupy: the tree it gave back, which stands where the old one
/// stood; none where it handed a node up unwritten.
pub open spec fn spared(status: DeleteCOWStatus) -> int {
    match status {
        DeleteCOWStatus::NewOffset(n) => n.0 as int,
        DeleteCOWStatus::DidUnderflow(_) => 0,
    }
}

/// What a deletion of a key with `len` bytes from the node stored at `o`,
/// whose keys have `len` bytes each, has written or hands up: nodes with
/// such keys, each of which occupies the space that a node must, but that
/// the one node written for a node that did not need not.
pub open spec fn stays_full(
    pre: Pager,
    post: Pager,
    o: int,
    len: nat,
    status: DeleteCOWStatus,
) -> bool {
    &&& fresh_fit(pre, post, spared(status), len)
    &&& status is NewOffset && snug_at(pre.disk(), o) ==> snug_at(
        post.disk(),
        status->NewOffset_0.0 as int,
    )
    &&& status is DidUnderflow ==> even_keys(
        kind_keys(status->DidUnderflow_0@.kind),
        len,
    )
}

/// Whether a node that a deletion hands up is told to occupy the space that
/// it does occupy, which is less than the space below which a node
/// underflows.
pub open spec fn underflow_told(r: Result<(Option<u64>, DeleteCOWStatus), Error>) -> bool {
    match r {
        Ok((_, DeleteCOWStatus::DidUnderflow(node))) => node.node_kind.occupied()
            < UNDERFLOW_SPACE && node.node_kind.occupied() == node_space(node@.kind),
        _ => true,
    }
}

/// Whether `r` reports that `key` is not there.
pub open spec fn key_not_found<T>(r: Result<T, Error>, key: Seq<char>) -> bool {
    r is Err && r->Err_0 is KeyNotFound && r->Err_0->KeyNotFound_0@ == key
}

/// One leaf written in place of a leaf, with the pairs of the old leaf but
/// one, is the deletion of that pair.
#[verifier::rlimit(60)]
pub proof fn lemma_leaf_deleted(
    pre: Pager,
    post: Pager,
    o: int,
    n: Offset,
    lo: Option<Key>,
    hi: Option<Key>,
    key: Key,
    fq: Seq<usize>,
)
    requires
        subtree(pre.disk(), o, 0, lo, hi),
        all_live(pre, o, 0),
        grew(pre, post),
        !live(pre, n.0 as int),
        live(post, n.0 as int),
        node_at(post.disk(), n.0 as int) is Some,
        node_at(post.disk(), n.0 as int)->Some_0.kind is Leaf,
        space_at(post.disk(), n.0 as int) <= PAGE_SIZE,
        leaf_ok(node_at(post.disk(), n.0 as int)->Some_0.kind->Leaf_pairs, lo, hi),
        forall|k: Key| #[trigger]
            pairs_get(node_at(post.disk(), n.0 as int)->Some_0.kind->Leaf_pairs, k) == if k
                == key {
                None
            } else {
                pairs_get(node_at(pre.disk(), o)->Some_0.kind->Leaf_pairs, k)
            },
        forall|x: usize| fq.contains(x) ==> x == o,
    ensures
        deleted(pre, post, o, 0, lo, hi, key, fq, DeleteCOWStatus::NewOffset(n)),
        from_tree(pre.disk(), o, 0, fq),
{
    reveal(deleted);
    lemma_leaf_subtree(post.disk(), n.0 as int, lo, hi);
    lemma_subtree_leaf(pre.disk(), o, lo, hi);
    assert(in_subtree(pre.disk(), o, 0, o));
    assert(live(pre, o));
    assert forall|i: int| 0 <= i < fq.len() implies in_subtree(
        pre.disk(),
        o,
        0,
        #[trigger] fq[i] as int,
    ) by {
        assert(fq.contains(fq[i]));
    }
    assert forall|p: int| #[trigger] in_subtree(post.disk(), n.0 as int, 0, p) implies live(post, p)
        && ((in_subtree(pre.disk(), o, 0, p) && p != o) || !live(pre, p)) && !fq.contains(
        p as usize,
    ) by {
        assert(p == n.0);
    }
    assert forall|k: Key| #[trigger]
        lookup(post.disk(), n.0 as int, 0, k) == without(pre.disk(), o, 0, key, k) by {
        assert(pairs_get(node_at(post.disk(), n.0 as int)->Some_0.kind->Leaf_pairs, k) == if k
            == key {
            None
        } else {
            pairs_get(node_at(pre.disk(), o)->Some_0.kind->Leaf_pairs, k)
        });
    }
}

/// Rewrites a leaf for the deletion of `key`: with the pair taken out, the
/// leaf is written anew where it still occupies the space that a node must,
/// and is handed up unwritten where it does not.
#[verifier::rlimit(60)]
fn delete_leaf(
    pager: &mut Pager,
    fq: &mut FreeQueue,
    node: Node,
    node_offset: &Offset,
    key: &str,
    Ghost(lo): Ghost<Option<Key>>,
    Ghost(hi): Ghost<Option<Key>>,
) -> (r: Result<(Option<u64>, DeleteCOWStatus), Error>)
    requires
        old(pager).wf(),
        node.node_kind is Leaf,
        subtree(old(pager).disk(), node_offset.0 as int, 0, lo, hi),
        node_at(old(pager).disk(), node_offset.0 as int) == Some(node@),
        node.node_kind.occupied() == space_at(old(pager).disk(), node_offset.0 as int),
        all_live(*old(pager), node_offset.0 as int, 0),
        old(fq)@.len() == 0,
    ensures
        lookup(old(pager).disk(), node_offset.0 as int, 0, key_of(key@)) is None ==> key_not_found(
            r,
            key@,
        ) && *final(pager) == *old(pager) && final(fq)@ == old(fq)@,
        grew(*old(pager), *final(pager)),
        from_tree(old(pager).disk(), node_offset.0 as int, 0, final(fq)@),
        underflow_told(r),
        r is Ok ==> r->Ok_0.0 == lookup(old(pager).disk(), node_offset.0 as int, 0, key_of(key@))
            && r->Ok_0.0 is Some && deleted(
            *old(pager),
            *final(pager),
            node_offset.0 as int,
            0,
            lo,
            hi,
            key_of(key@),
            final(fq)@,
            r->Ok_0.1,
        ),
        r is Ok && r->Ok_0.1 is NewOffset ==> space_at(
            final(pager).disk(),
            r->Ok_0.1->NewOffset_0.0 as int,
        ) >= UNDERFLOW_SPACE,
        r is Ok && r->Ok_0.1 is DidUnderflow ==> *final(pager) == *old(pager) && node_space(
            r->Ok_0.1->DidUnderflow_0@.kind,
        ) <= PAGE_SIZE,
        old(pager).curser <= final(pager).curser <= old(pager).curser + PAGE_SIZE,
        lookup(old(pager).disk(), node_offset.0 as int, 0, key_of(key@)) is Some && room(
            *old(pager),
            1,
        ) ==> r is Ok,
        lookup(old(pager).disk(), node_offset.0 as int, 0, key_of(key@)) is Some && r is Err
            ==> r->Err_0 is UnexpectedError,
        r is Ok ==> (r->Ok_0.1 is NewOffset <==> leaf_stays(
            old(pager).disk(),
            node_offset.0 as int,
            0,
            key_of(key@),
        )),
        r is Ok ==> told(r->Ok_0.1, plan(old(pager).disk(), node_offset.0 as int, 0, key_of(key@))),
        r is Ok ==> written_anew(*old(pager), final(fq)@, node_offset.0, r->Ok_0.1),
        r is Ok ==> fresh_snug(*old(pager), *final(pager), 0),
        r is Ok ==> reclaimed_del(
            old(pager).disk(),
            node_offset.0 as int,
            0,
            final(pager).disk(),
            final(fq)@,
            r->Ok_0.1,
        ),
        r is Ok && r->Ok_0.1 is NewOffset ==> space_at(
            final(pager).disk(),
            r->Ok_0.1->NewOffset_0.0 as int,
        ) == space_at(old(pager).disk(), node_offset.0 as int) - (1 + key_of(key@).len()
            + VALUE_SIZE),
        r is Ok && even_at(old(pager).disk(), node_offset.0 as int, key_of(key@).len())
            ==> stays_full(
            *old(pager),
            *final(pager),
            node_offset.0 as int,
            key_of(key@).len(),
            r->Ok_0.1,
        ),
{
    let ghost pre = *pager;
    let ghost o = node_offset.0 as int;
    let ghost k = key_of(key@);
    let ghost old_pairs = node@.kind->Leaf_pairs;
    proof {
        lemma_subtree_leaf(pre.disk(), o, lo, hi);
        lemma_decode_space(page_at(pre.disk(), o));
        assert(grew(pre, pre));
        assert(from_tree(pre.disk(), o, 0, fq@));
    }
    match node.node_kind {
        NodeKind::Internal { .. } => Err(Error::NodeParseError),
        NodeKind::Leaf { next, previous, mut key_value_pairs, occupied_space } => {
            let idx = match find_pair(&key_value_pairs, key) {
                Ok(idx) => idx,
                Err(_) => {
                    return Err(Error::KeyNotFound(key.to_owned()));
                },
            };
            let removed = key_value_pairs.remove(idx);
            let ghost new_pairs = pairs_view(key_value_pairs@);
            proof {
                assert(old_pairs[idx as int] == (key_of(removed.key@), removed.value));
                assert(new_pairs =~= old_pairs.remove(idx as int));
                lemma_pairs_space_at(old_pairs, idx as int);
                lemma_pairs_remove(old_pairs, idx as int);
                lemma_leaf_ok_remove(old_pairs, idx as int, lo, hi);
                lemma_pairs_get_at(old_pairs, idx as int);
                lemma_place_one(old_pairs, k, idx as int);
                lemma_leaf_space(new_pairs);
                if even_keys(pair_keys(old_pairs), k.len()) {
                    assert forall|i: int| 0 <= i < new_pairs.len() implies (#[trigger] pair_keys(
                        new_pairs,
                    )[i]).len() == k.len() by {
                        if i < idx {
                            assert(pair_keys(new_pairs)[i] == pair_keys(old_pairs)[i]);
                        } else {
                            assert(pair_keys(new_pairs)[i] == pair_keys(old_pairs)[i + 1]);
                        }
                    }
                }
            }
            let removed_space = removed.key.as_str().as_bytes().len() + 1 + VALUE_SIZE;
            let new_space = occupied_space - removed_space;
            if new_space < UNDERFLOW_SPACE {
                let under = Node::new(
                    NodeKind::Leaf { next, previous, key_value_pairs, occupied_space: new_space },
                    None,
                );
                proof {
                    reveal(deleted);
                    assert(storable(node@));
                }
                Ok((Some(removed.value), DeleteCOWStatus::DidUnderflow(under)))
            } else {
                let new_node = Node::new(
                    NodeKind::Leaf { next, previous, key_value_pairs, occupied_space },
                    None,
                );
                proof {
                    assert(storable(node@));
                    assert(storable(new_node@));
                    lemma_encode_fits(new_node@);
                }
                let offset = write_node(pager, &new_node)?;
                fq.add(*node_offset);
                proof {
                    lemma_leaf_deleted(pre, *pager, o, offset, lo, hi, k, fq@);
                    lemma_decode_space(page_at(pager.disk(), offset.0 as int));
                    lemma_snug_more(pre, pre, *pager, offset.0 as int, 0, 0);
                    if even_at(pre.disk(), o, k.len()) {
                        lemma_fresh_one(pre, *pager, offset.0 as int, offset.0 as int, k.len());
                    }
                }
                Ok((Some(removed.value), DeleteCOWStatus::NewOffset(offset)))
            }
        },
    }
}

/// What `deleted` says of a tree that a deletion has written.
pub proof fn lemma_deleted_one(
    pre: Pager,
    post: Pager,
    o: int,
    h: nat,
    lo: Option<Key>,
    hi: Option<Key>,
    key: Key,
    fq: Seq<usize>,
    n: Offset,
)
    requires
        deleted(pre, post, o, h, lo, hi, key, fq, DeleteCOWStatus::NewOffset(n)),
    ensures
        replaced(pre, post, o, h, n.0 as int, h, lo, hi, fq),
        forall|k: Key| #[trigger]
            lookup(post.disk(), n.0 as int, h, k) == without(pre.disk(), o, h, key, k),
{
    reveal(deleted);
}

/// A node written over separators and children that are ready and give
/// each key what the deletion asks for is the deletion from the node.
pub proof fn lemma_delete_one(
    pre: Pager,
    mid: Pager,
    post: Pager,
    o: int,
    h: nat,
    lo: Option<Key>,
    hi: Option<Key>,
    keys: Seq<Key>,
    kids: Seq<usize>,
    n: Offset,
    key: Key,
    fq: Seq<usize>,
    fq2: Seq<usize>,
)
    requires
        h > 0,
        live(pre, o),
        grew(pre, mid),
        grew(mid, post),
        ready(pre, mid, o, h, keys, kids, (h - 1) as nat, lo, hi, fq),
        forall|k: Key| #[trigger]
            lookup_under(mid.disk(), keys, kids, (h - 1) as nat, k) == without(
                pre.disk(),
                o,
                h,
                key,
                k,
            ),
        from_tree(pre.disk(), o, h, fq),
        all_live(pre, o, h),
        !live(mid, n.0 as int),
        live(post, n.0 as int),
        internal_at(post.disk(), n.0 as int, keys, kids),
        forall|x: usize| fq2.contains(x) <==> fq.contains(x) || x == o,
    ensures
        deleted(pre, post, o, h, lo, hi, key, fq2, DeleteCOWStatus::NewOffset(n)),
        from_tree(pre.disk(), o, h, fq2),
{
    reveal(deleted);
    assert forall|x: usize| fq.contains(x) implies live(pre, x as int) by {
        let i = choose|i: int| 0 <= i < fq.len() && fq[i] == x;
        assert(in_subtree(pre.disk(), o, h, fq[i] as int));
    }
    lemma_assemble(pre, mid, post, o, h, n.0 as int, h, keys, kids, lo, hi, fq, fq2);
    lemma_from_tree_add(pre.disk(), o, h, fq, fq2);
    assert forall|k: Key| #[trigger]
        lookup(post.disk(), n.0 as int, h, k) == without(pre.disk(), o, h, key, k) by {
        assert(lookup(post.disk(), n.0 as int, h, k) == lookup_under(
            mid.disk(),
            keys,
            kids,
            (h - 1) as nat,
            k,
        ));
    }
}

/// After a deletion wrote the child `idx` anew, the separators of the node,
/// and its children with the new child, are ready, and give each key what
/// the deletion asks for.
pub proof fn lemma_delete_below_ready(
    pre: Pager,
    mid: Pager,
    o: int,
    h: nat,
    lo: Option<Key>,
    hi: Option<Key>,
    idx: int,
    c2: Offset,
    key: Key,
    fq: Seq<usize>,
)
    requires
        subtree(pre.disk(), o, h, lo, hi),
        node_at(pre.disk(), o)->Some_0.kind is Internal,
        all_live(pre, o, h),
        grew(pre, mid),
        0 <= idx < node_at(pre.disk(), o)->Some_0.kind->Internal_children.len(),
        idx == route(node_at(pre.disk(), o)->Some_0.kind->Internal_keys, key),
        deleted(
            pre,
            mid,
            node_at(pre.disk(), o)->Some_0.kind->Internal_children[idx] as int,
            (h - 1) as nat,
            child_lo(node_at(pre.disk(), o)->Some_0.kind->Internal_keys, lo, idx),
            child_hi(node_at(pre.disk(), o)->Some_0.kind->Internal_keys, hi, idx),
            key,
            fq,
            DeleteCOWStatus::NewOffset(c2),
        ),
        from_tree(
            pre.disk(),
            node_at(pre.disk(), o)->Some_0.kind->Internal_children[idx] as int,
            (h - 1) as nat,
            fq,
        ),
    ensures
        h > 0,
        live(pre, o),
        ready(
            pre,
            mid,
            o,
            h,
            node_at(pre.disk(), o)->Some_0.kind->Internal_keys,
            node_at(pre.disk(), o)->Some_0.kind->Internal_children.update(idx, c2.0),
            (h - 1) as nat,
            lo,
            hi,
            fq,
        ),
        forall|k: Key| #[trigger]
            lookup_under(
                mid.disk(),
                node_at(pre.disk(), o)->Some_0.kind->Internal_keys,
                node_at(pre.disk(), o)->Some_0.kind->Internal_children.update(idx, c2.0),
                (h - 1) as nat,
                k,
            ) == without(pre.disk(), o, h, key, k),
{
    reveal(deleted);
    let keys = node_at(pre.disk(), o)->Some_0.kind->Internal_keys;
    let children = node_at(pre.disk(), o)->Some_0.kind->Internal_children;
    let kids = children.update(idx, c2.0);
    let hc = (h - 1) as nat;
    lemma_subtree_internal(pre.disk(), o, h, lo, hi);
    assert(in_subtree(pre.disk(), o, h, o));
    lemma_ready_replace(pre, mid, o, h, lo, hi, idx, c2.0, fq);
    assert forall|k: Key| #[trigger]
        lookup_under(mid.disk(), keys, kids, hc, k) == without(pre.disk(), o, h, key, k) by {
        assert(lookup(pre.disk(), o, h, k) == lookup_under(pre.disk(), keys, children, hc, k));
        if route(keys, k) == idx {
            assert(lookup(mid.disk(), c2.0 as int, hc, k) == without(
                pre.disk(),
                children[idx] as int,
                hc,
                key,
                k,
            ));
        }
    }
}

/// Rewrites an internal node after a deletion below it wrote the child
/// `idx` anew: with the new child in the place of the old.
#[verifier::rlimit(60)]
fn delete_rewritten(
    pager: &mut Pager,
    fq: &mut FreeQueue,
    keys: Vec<String>,
    children: Vec<Offset>,
    occupied_space: usize,
    node_offset: &Offset,
    idx: usize,
    new_child: Offset,
    removed_value: Option<u64>,
    Ghost(pre): Ghost<Pager>,
    Ghost(h): Ghost<nat>,
    Ghost(lo): Ghost<Option<Key>>,
    Ghost(hi): Ghost<Option<Key>>,
    Ghost(key): Ghost<Key>,
) -> (r: Result<(Option<u64>, DeleteCOWStatus), Error>)
    requires
        old(pager).wf(),
        grew(pre, *old(pager)),
        subtree(pre.disk(), node_offset.0 as int, h, lo, hi),
        all_live(pre, node_offset.0 as int, h),
        node_at(pre.disk(), node_offset.0 as int)->Some_0.kind == (KindView::Internal {
            keys: keys_view(keys@),
            children: offsets_view(children@),
        }),
        idx < children@.len(),
        idx == route(keys_view(keys@), key),
        from_tree(pre.disk(), children@[idx as int].0 as int, (h - 1) as nat, old(fq)@),
        deleted(
            pre,
            *old(pager),
            children@[idx as int].0 as int,
            (h - 1) as nat,
            child_lo(keys_view(keys@), lo, idx as int),
            child_hi(keys_view(keys@), hi, idx as int),
            key,
            old(fq)@,
            DeleteCOWStatus::NewOffset(new_child),
        ),
    ensures
        r is Err ==> r->Err_0 is UnexpectedError,
        r is Ok ==> written_anew(pre, final(fq)@, node_offset.0, r->Ok_0.1),
        r is Ok && accounted(
            pre.disk(),
            children@[idx as int].0 as int,
            (h - 1) as nat,
            old(pager).disk(),
            new_child.0 as int,
            (h - 1) as nat,
            old(fq)@,
        ) ==> reclaimed_del(
            pre.disk(),
            node_offset.0 as int,
            h,
            final(pager).disk(),
            final(fq)@,
            r->Ok_0.1,
        ),
        r is Ok ==> space_at(final(pager).disk(), r->Ok_0.1->NewOffset_0.0 as int) == space_at(
            pre.disk(),
            node_offset.0 as int,
        ),
        r is Ok && fresh_snug(pre, *old(pager), 0) ==> fresh_snug(
            pre,
            *final(pager),
            r->Ok_0.1->NewOffset_0.0 as int,
        ),
        grew(pre, *final(pager)),
        from_tree(pre.disk(), node_offset.0 as int, h, final(fq)@),
        underflow_told(r),
        r is Ok ==> r->Ok_0.0 == removed_value && r->Ok_0.1 is NewOffset && deleted(
            pre,
            *final(pager),
            node_offset.0 as int,
            h,
            lo,
            hi,
            key,
            final(fq)@,
            r->Ok_0.1,
        ),
        old(pager).curser <= final(pager).curser <= old(pager).curser + PAGE_SIZE,
        room(*old(pager), 1) ==> r is Ok,
        r is Ok && even_at(pre.disk(), node_offset.0 as int, key.len()) && fresh_fit(
            pre,
            *old(pager),
            new_child.0 as int,
            key.len(),
        ) && snug_at(old(pager).disk(), new_child.0 as int) ==> stays_full(
            pre,
            *final(pager),
            node_offset.0 as int,
            key.len(),
            r->Ok_0.1,
        ),
{
    let ghost mid = *pager;
    let ghost o = node_offset.0 as int;
    let ghost old_children = offsets_view(children@);
    let ghost old_fq = fq@;
    proof {
        assert(old_children[idx as int] == children@[idx as int].0);
        lemma_from_tree_up(pre.disk(), o, h, lo, hi, idx as int, fq@);
        lemma_subtree_internal(pre.disk(), o, h, lo, hi);
        lemma_delete_below_ready(pre, mid, o, h, lo, hi, idx as int, new_child, key, old_fq);
    }
    let mut children = children;
    children[idx] = new_child;
    let node = Node::new(NodeKind::Internal { keys, children, occupied_space }, None);
    proof {
        assert(offsets_view(children@) =~= old_children.update(idx as int, new_child.0));
        assert(storable(node@));
        assert(node_space(node@.kind) <= PAGE_SIZE) by {
            lemma_decode_space(page_at(pre.disk(), o));
            assert(space_at(pre.disk(), o) <= PAGE_SIZE);
        }
        lemma_encode_fits(node@);
    }
    let n = write_node(pager, &node)?;
    fq.add(*node_offset);
    proof {
        lemma_grew_transitive(pre, mid, *pager);
        lemma_delete_one(
            pre,
            mid,
            *pager,
            o,
            h,
            lo,
            hi,
            keys_view(keys@),
            offsets_view(children@),
            n,
            key,
            old_fq,
            fq@,
        );
        lemma_decode_space(page_at(pager.disk(), n.0 as int));
        lemma_decode_space(page_at(pre.disk(), o));
        if accounted(
            pre.disk(),
            old_children[idx as int] as int,
            (h - 1) as nat,
            mid.disk(),
            new_child.0 as int,
            (h - 1) as nat,
            old_fq,
        ) {
            lemma_cover_one(pre, mid, o, h, lo, hi, idx as int, new_child.0, old_fq);
            lemma_account_node(
                pre,
                mid,
                *pager,
                o,
                h,
                keys_view(keys@),
                old_children.update(idx as int, new_child.0),
                (h - 1) as nat,
                lo,
                hi,
                n.0 as int,
                old_fq,
                fq@,
            );
        }
        if fresh_snug(pre, mid, 0) {
            lemma_snug_more(pre, mid, *pager, n.0 as int, 0, n.0 as int);
        }
        if even_at(pre.disk(), o, key.len()) && fresh_fit(pre, mid, new_child.0 as int, key.len())
            && snug_at(mid.disk(), new_child.0 as int) {
            lemma_fresh_more(
                pre,
                mid,
                *pager,
                n.0 as int,
                new_child.0 as int,
                n.0 as int,
                key.len(),
            );
        }
    }
    Ok((removed_value, DeleteCOWStatus::NewOffset(n)))
}

/// Whether one tree is there to take the place of the children `si` and
/// `si + 1` of the sound node stored at `o`, for the deletion of `key`: it
/// is sound within the bounds of the two, is made of what they were made of,
/// holds neither of their roots nor a page of `fq`, and gives each key that
/// the node led to one of the two what the deletion asks for.
#[verifier::opaque]
pub open spec fn merged_for(
    pre: Pager,
    cur: Pager,
    o: int,
    h: nat,
    lo: Option<Key>,
    hi: Option<Key>,
    si: int,
    key: Key,
    fq: Seq<usize>,
    n: Offset,
) -> bool {
    let keys = node_at(pre.disk(), o)->Some_0.kind->Internal_keys;
    let children = node_at(pre.disk(), o)->Some_0.kind->Internal_children;
    let hc = (h - 1) as nat;
    &&& subtree(cur.disk(), n.0 as int, hc, child_lo(keys, lo, si), child_hi(keys, hi, si + 1))
    &&& from_pair(pre, cur, children[si] as int, children[si + 1] as int, hc, n.0 as int, hc, fq)
    &&& !in_subtree(cur.disk(), n.0 as int, hc, children[si] as int)
    &&& !in_subtree(cur.disk(), n.0 as int, hc, children[si + 1] as int)
    &&& forall|k: Key| #[trigger]
        lookup(cur.disk(), n.0 as int, hc, k) == without(pre.disk(), o, h, key, k) || !(route(
            keys,
            k,
        ) == si || route(keys, k) == si + 1)
}

/// Whether two trees that the key `m` parts are there to take the place of
/// the children `si` and `si + 1` of the sound node stored at `o`, for the
/// deletion of `key`.
#[verifier::opaque]
pub open spec fn shared_for(
    pre: Pager,
    cur: Pager,
    o: int,
    h: nat,
    lo: Option<Key>,
    hi: Option<Key>,
    si: int,
    key: Key,
    fq: Seq<usize>,
    m: Key,
    a: Offset,
    b: Offset,
) -> bool {
    let keys = node_at(pre.disk(), o)->Some_0.kind->Internal_keys;
    let children = node_at(pre.disk(), o)->Some_0.kind->Internal_children;
    let hc = (h - 1) as nat;
    &&& key_storable(m)
    &&& above(child_lo(keys, lo, si), m)
    &&& below(m, child_hi(keys, hi, si + 1))
    &&& subtree(cur.disk(), a.0 as int, hc, child_lo(keys, lo, si), Some(m))
    &&& subtree(cur.disk(), b.0 as int, hc, Some(m), child_hi(keys, hi, si + 1))
    &&& from_pair(pre, cur, children[si] as int, children[si + 1] as int, hc, a.0 as int, hc, fq)
    &&& from_pair(pre, cur, children[si] as int, children[si + 1] as int, hc, b.0 as int, hc, fq)
    &&& !in_subtree(cur.disk(), a.0 as int, hc, children[si] as int)
    &&& !in_subtree(cur.disk(), a.0 as int, hc, children[si + 1] as int)
    &&& !in_subtree(cur.disk(), b.0 as int, hc, children[si] as int)
    &&& !in_subtree(cur.disk(), b.0 as int, hc, children[si + 1] as int)
    &&& pages(cur.disk(), a.0 as int, hc).disjoint(pages(cur.disk(), b.0 as int, hc))
    &&& forall|k: Key| #[trigger]
        split_lookup(cur.disk(), m, a.0 as int, b.0 as int, hc, k) == without(
            pre.disk(),
            o,
            h,
            key,
            k,
        ) || !(route(keys, k) == si || route(keys, k) == si + 1)
}

/// A tree made of what two trees were made of, that holds neither of their
/// roots, is still so when the two roots are to be given back.
pub proof fn lemma_from_pair_more(
    pre: Pager,
    cur: Pager,
    a: int,
    b: int,
    hc: nat,
    t: int,
    ht: nat,
    fq: Seq<usize>,
    fq2: Seq<usize>,
)
    requires
        cur.wf(),
        from_pair(pre, cur, a, b, hc, t, ht, fq),
        !in_subtree(cur.disk(), t, ht, a),
        !in_subtree(cur.disk(), t, ht, b),
        forall|x: usize| fq2.contains(x) ==> fq.contains(x) || x == a || x == b,
    ensures
        from_pair(pre, cur, a, b, hc, t, ht, fq2),
{
    assert forall|p: int| #[trigger] in_subtree(cur.disk(), t, ht, p) implies live(cur, p) && (
    in_subtree(pre.disk(), a, hc, p) || in_subtree(pre.disk(), b, hc, p) || !live(pre, p))
        && !fq2.contains(p as usize) by {
        assert(live(cur, p));
        assert(p as usize as int == p);
    }
}

/// What is the same of every deletion that found the child `ci` of the
/// sound node stored at `o` to underflow, and is about to replace it and
/// its neighbour: `fq2`, the pages to give back, holds the roots of the two
/// and pages that the deletion below put there.
#[verifier::opaque]
pub open spec fn pair_replaced(
    pre: Pager,
    cur: Pager,
    o: int,
    h: nat,
    lo: Option<Key>,
    hi: Option<Key>,
    si: int,
    ci: int,
    key: Key,
    fq: Seq<usize>,
    fq2: Seq<usize>,
) -> bool {
    let keys = node_at(pre.disk(), o)->Some_0.kind->Internal_keys;
    let children = node_at(pre.disk(), o)->Some_0.kind->Internal_children;
    &&& cur.wf()
    &&& subtree(pre.disk(), o, h, lo, hi)
    &&& node_at(pre.disk(), o)->Some_0.kind is Internal
    &&& all_live(pre, o, h)
    &&& grew(pre, cur)
    &&& 0 <= si
    &&& si + 1 < children.len()
    &&& (ci == si || ci == si + 1)
    &&& ci == route(keys, key)
    &&& from_tree(pre.disk(), children[ci] as int, (h - 1) as nat, fq)
    &&& forall|x: usize|
        fq2.contains(x) <==> fq.contains(x) || x == children[si] || x == children[si + 1]
}

/// What makes `pair_replaced` hold.
pub proof fn lemma_pair_replaced_intro(
    pre: Pager,
    cur: Pager,
    o: int,
    h: nat,
    lo: Option<Key>,
    hi: Option<Key>,
    si: int,
    ci: int,
    key: Key,
    fq: Seq<usize>,
    fq2: Seq<usize>,
)
    requires
        cur.wf(),
        subtree(pre.disk(), o, h, lo, hi),
        node_at(pre.disk(), o)->Some_0.kind is Internal,
        all_live(pre, o, h),
        grew(pre, cur),
        0 <= si,
        si + 1 < node_at(pre.disk(), o)->Some_0.kind->Internal_children.len(),
        ci == si || ci == si + 1,
        ci == route(node_at(pre.disk(), o)->Some_0.kind->Internal_keys, key),
        from_tree(
            pre.disk(),
            node_at(pre.disk(), o)->Some_0.kind->Internal_children[ci] as int,
            (h - 1) as nat,
            fq,
        ),
        forall|x: usize|
            fq2.contains(x) <==> fq.contains(x) || x == node_at(
                pre.disk(),
                o,
            )->Some_0.kind->Internal_children[si] || x == node_at(
                pre.disk(),
                o,
            )->Some_0.kind->Internal_children[si + 1],
    ensures
        pair_replaced(pre, cur, o, h, lo, hi, si, ci, key, fq, fq2),
{
    reveal(pair_replaced);
}

/// The pages to give back when two children are replaced are pages of the
/// two.
pub proof fn lemma_pair_replaced(
    pre: Pager,
    cur: Pager,
    o: int,
    h: nat,
    lo: Option<Key>,
    hi: Option<Key>,
    si: int,
    ci: int,
    key: Key,
    fq: Seq<usize>,
    fq2: Seq<usize>,
)
    requires
        pair_replaced(pre, cur, o, h, lo, hi, si, ci, key, fq, fq2),
    ensures
        cur.wf(),
        forall|x: usize|
            fq2.contains(x) ==> fq.contains(x) || x == node_at(
                pre.disk(),
                o,
            )->Some_0.kind->Internal_children[si] as int || x == node_at(
                pre.disk(),
                o,
            )->Some_0.kind->Internal_children[si + 1] as int,
        pair_below(pre, cur, o, h, lo, hi, si, fq2),
        forall|k: Key|
            !(route(node_at(pre.disk(), o)->Some_0.kind->Internal_keys, k) == si || route(
                node_at(pre.disk(), o)->Some_0.kind->Internal_keys,
                k,
            ) == si + 1) ==> #[trigger] lookup(pre.disk(), o, h, k) == without(
                pre.disk(),
                o,
                h,
                key,
                k,
            ),
{
    reveal(pair_replaced);
    let children = node_at(pre.disk(), o)->Some_0.kind->Internal_children;
    let hc = (h - 1) as nat;
    assert(in_subtree(pre.disk(), children[si] as int, hc, children[si] as int));
    assert(in_subtree(pre.disk(), children[si + 1] as int, hc, children[si + 1] as int));
    assert forall|x: usize| fq2.contains(x) implies in_subtree(
        pre.disk(),
        children[si] as int,
        hc,
        x as int,
    ) || in_subtree(pre.disk(), children[si + 1] as int, hc, x as int) by {
        if fq.contains(x) {
            let i = choose|i: int| 0 <= i < fq.len() && fq[i] == x;
            assert(in_subtree(pre.disk(), children[ci] as int, hc, fq[i] as int));
        }
    }
}

/// The separators and children of a node whose children `si` and `si + 1`
/// were replaced by one tree are ready and give each key what the deletion
/// asks for.
#[verifier::rlimit(60)]
pub proof fn lemma_merged_ready(
    pre: Pager,
    cur: Pager,
    o: int,
    h: nat,
    lo: Option<Key>,
    hi: Option<Key>,
    si: int,
    ci: int,
    key: Key,
    fq: Seq<usize>,
    fq2: Seq<usize>,
    n: Offset,
)
    requires
        pair_replaced(pre, cur, o, h, lo, hi, si, ci, key, fq, fq2),
        merged_for(pre, cur, o, h, lo, hi, si, key, fq, n),
    ensures
        h > 0,
        live(pre, o),
        from_tree(pre.disk(), o, h, fq2),
        !fq2.contains(o as usize),
        ready(
            pre,
            cur,
            o,
            h,
            node_at(pre.disk(), o)->Some_0.kind->Internal_keys.remove(si),
            node_at(pre.disk(), o)->Some_0.kind->Internal_children.remove(si + 1).update(
                si,
                n.0,
            ),
            (h - 1) as nat,
            lo,
            hi,
            fq2,
        ),
        forall|k: Key| #[trigger]
            lookup_under(
                cur.disk(),
                node_at(pre.disk(), o)->Some_0.kind->Internal_keys.remove(si),
                node_at(pre.disk(), o)->Some_0.kind->Internal_children.remove(si + 1).update(
                    si,
                    n.0,
                ),
                (h - 1) as nat,
                k,
            ) == without(pre.disk(), o, h, key, k),
{
    reveal(merged_for);
    let keys = node_at(pre.disk(), o)->Some_0.kind->Internal_keys;
    let children = node_at(pre.disk(), o)->Some_0.kind->Internal_children;
    let hc = (h - 1) as nat;
    lemma_pair_replaced(pre, cur, o, h, lo, hi, si, ci, key, fq, fq2);
    lemma_pair_fq(pre, cur, o, h, lo, hi, si, fq2);
    lemma_from_pair_more(
        pre,
        cur,
        children[si] as int,
        children[si + 1] as int,
        hc,
        n.0 as int,
        hc,
        fq,
        fq2,
    );
    lemma_ready_merge(pre, cur, o, h, lo, hi, si, n.0, fq2);
    assert(live(pre, o));
    assert(o as usize as int == o);
    assert forall|k: Key| #[trigger]
        lookup_under(
            cur.disk(),
            keys.remove(si),
            children.remove(si + 1).update(si, n.0),
            hc,
            k,
        ) == without(pre.disk(), o, h, key, k) by {
        if route(keys, k) == si || route(keys, k) == si + 1 {
            assert(lookup(cur.disk(), n.0 as int, hc, k) == without(pre.disk(), o, h, key, k));
        } else {
            assert(lookup(pre.disk(), o, h, k) == without(pre.disk(), o, h, key, k));
        }
    }
}

/// The separators and children of a node whose children `si` and `si + 1`
/// were replaced by two trees, and the separator between them by the key
/// that parts the two, are ready and give each key what the deletion asks
/// for.
#[verifier::rlimit(60)]
pub proof fn lemma_shared_ready(
    pre: Pager,
    cur: Pager,
    o: int,
    h: nat,
    lo: Option<Key>,
    hi: Option<Key>,
    si: int,
    ci: int,
    key: Key,
    fq: Seq<usize>,
    fq2: Seq<usize>,
    m: Key,
    a: Offset,
    b: Offset,
)
    requires
        pair_replaced(pre, cur, o, h, lo, hi, si, ci, key, fq, fq2),
        shared_for(pre, cur, o, h, lo, hi, si, key, fq, m, a, b),
    ensures
        h > 0,
        live(pre, o),
        from_tree(pre.disk(), o, h, fq2),
        ready(
            pre,
            cur,
            o,
            h,
            node_at(pre.disk(), o)->Some_0.kind->Internal_keys.update(si, m),
            node_at(pre.disk(), o)->Some_0.kind->Internal_children.update(si, a.0).update(
                si + 1,
                b.0,
            ),
            (h - 1) as nat,
            lo,
            hi,
            fq2,
        ),
        forall|k: Key| #[trigger]
            lookup_under(
                cur.disk(),
                node_at(pre.disk(), o)->Some_0.kind->Internal_keys.update(si, m),
                node_at(pre.disk(), o)->Some_0.kind->Internal_children.update(si, a.0).update(
                    si + 1,
                    b.0,
                ),
                (h - 1) as nat,
                k,
            ) == without(pre.disk(), o, h, key, k),
{
    reveal(shared_for);
    let keys = node_at(pre.disk(), o)->Some_0.kind->Internal_keys;
    let children = node_at(pre.disk(), o)->Some_0.kind->Internal_children;
    let hc = (h - 1) as nat;
    lemma_pair_replaced(pre, cur, o, h, lo, hi, si, ci, key, fq, fq2);
    lemma_pair_fq(pre, cur, o, h, lo, hi, si, fq2);
    lemma_from_pair_more(
        pre,
        cur,
        children[si] as int,
        children[si + 1] as int,
        hc,
        a.0 as int,
        hc,
        fq,
        fq2,
    );
    lemma_from_pair_more(
        pre,
        cur,
        children[si] as int,
        children[si + 1] as int,
        hc,
        b.0 as int,
        hc,
        fq,
        fq2,
    );
    lemma_ready_redistribute(pre, cur, o, h, lo, hi, si, m, a.0, b.0, fq2);
    assert forall|k: Key| #[trigger]
        lookup_under(
            cur.disk(),
            keys.update(si, m),
            children.update(si, a.0).update(si + 1, b.0),
            hc,
            k,
        ) == without(pre.disk(), o, h, key, k) by {
        if !(route(keys, k) == si || route(keys, k) == si + 1) {
            assert(lookup(pre.disk(), o, h, k) == without(pre.disk(), o, h, key, k));
        } else {
            assert(split_lookup(cur.disk(), m, a.0 as int, b.0 as int, hc, k) == without(
                pre.disk(),
                o,
                h,
                key,
                k,
            ));
        }
    }
}

/// Rewrites an internal node after its children `si` and `si + 1` were
/// merged into the tree stored at `new_child`: with that tree in the place
/// of the two and the separator between them taken out. The node is written
/// anew where it still occupies the space that a node must, and is handed up
/// unwritten where it does not.
#[verifier::rlimit(40)]
fn finish_merge(
    pager: &mut Pager,
    fq: &mut FreeQueue,
    keys: Vec<String>,
    children: Vec<Offset>,
    occupied_space: usize,
    node_offset: &Offset,
    child_idx: usize,
    sibling_idx: usize,
    new_child: Offset,
    removed_value: Option<u64>,
    Ghost(pre): Ghost<Pager>,
    Ghost(h): Ghost<nat>,
    Ghost(lo): Ghost<Option<Key>>,
    Ghost(hi): Ghost<Option<Key>>,
    Ghost(key): Ghost<Key>,
) -> (r: Result<(Option<u64>, DeleteCOWStatus), Error>)
    requires
        old(pager).wf(),
        grew(pre, *old(pager)),
        subtree(pre.disk(), node_offset.0 as int, h, lo, hi),
        all_live(pre, node_offset.0 as int, h),
        node_at(pre.disk(), node_offset.0 as int)->Some_0.kind == (KindView::Internal {
            keys: keys_view(keys@),
            children: offsets_view(children@),
        }),
        occupied_space == space_at(pre.disk(), node_offset.0 as int),
        child_idx < children@.len(),
        sibling_idx < children@.len(),
        sibling_idx == child_idx + 1 || child_idx == sibling_idx + 1,
        child_idx == route(keys_view(keys@), key),
        from_tree(pre.disk(), children@[child_idx as int].0 as int, (h - 1) as nat, old(fq)@),
        merged_for(
            pre,
            *old(pager),
            node_offset.0 as int,
            h,
            lo,
            hi,
            if child_idx < sibling_idx {
                child_idx as int
            } else {
                sibling_idx as int
            },
            key,
            old(fq)@,
            new_child,
        ),
    ensures
        r is Err ==> r->Err_0 is UnexpectedError,
        r is Ok ==> written_anew(pre, final(fq)@, node_offset.0, r->Ok_0.1),
        r is Ok && pre.wf() && pair_covered(
            pre.disk(),
            children@[lower(child_idx, sibling_idx)].0 as int,
            children@[lower(child_idx, sibling_idx) + 1].0 as int,
            (h - 1) as nat,
            old(pager).disk(),
            seq![new_child.0],
            (h - 1) as nat,
            old(fq)@,
        ) ==> reclaimed_del(
            pre.disk(),
            node_offset.0 as int,
            h,
            final(pager).disk(),
            final(fq)@,
            r->Ok_0.1,
        ),
        r is Ok && fresh_snug(pre, *old(pager), 0) ==> fresh_snug(pre, *final(pager), 0),
        r is Ok && r->Ok_0.1 is NewOffset ==> space_at(
            final(pager).disk(),
            r->Ok_0.1->NewOffset_0.0 as int,
        ) == internal_space(keys_view(keys@).remove(lower(child_idx, sibling_idx))),
        r is Ok ==> final(fq)@.contains(children@[child_idx as int].0) && final(fq)@.contains(
            children@[sibling_idx as int].0,
        ),
        grew(pre, *final(pager)),
        from_tree(pre.disk(), node_offset.0 as int, h, final(fq)@),
        underflow_told(r),
        old(pager).curser <= final(pager).curser <= old(pager).curser + PAGE_SIZE,
        room(*old(pager), 1) ==> r is Ok,
        r is Ok && even_at(pre.disk(), node_offset.0 as int, key.len()) && fresh_fit(
            pre,
            *old(pager),
            0,
            key.len(),
        ) ==> stays_full(pre, *final(pager), node_offset.0 as int, key.len(), r->Ok_0.1),
        r is Ok ==> told(
            r->Ok_0.1,
            merged_up(keys_view(keys@), lower(child_idx, sibling_idx)),
        ),
        r is Ok ==> r->Ok_0.0 == removed_value && deleted(
            pre,
            *final(pager),
            node_offset.0 as int,
            h,
            lo,
            hi,
            key,
            final(fq)@,
            r->Ok_0.1,
        ),
{
    let ghost mid = *pager;
    let ghost o = node_offset.0 as int;
    let ghost old_keys = keys_view(keys@);
    let ghost old_children = offsets_view(children@);
    let ghost old_fq = fq@;
    let ghost si: int = if child_idx < sibling_idx {
        child_idx as int
    } else {
        sibling_idx as int
    };
    let child_offset = children[child_idx];
    let sibling_offset = children[sibling_idx];
    let separator = if child_idx < sibling_idx {
        child_idx
    } else {
        sibling_idx
    };
    proof {
        assert(old_children[child_idx as int] == child_offset.0);
        assert(old_children[sibling_idx as int] == sibling_offset.0);
        lemma_subtree_internal(pre.disk(), o, h, lo, hi);
        lemma_decode_space(page_at(pre.disk(), o));
        lemma_keys_space_at(old_keys, si);
        assert(old_keys[si] == key_of(keys@[si]@));
    }
    let mut new_children = children;
    let mut new_keys = keys;
    new_children[child_idx] = new_child;
    new_children.remove(sibling_idx);
    let removed_key = new_keys.remove(separator);
    fq.add(child_offset);
    fq.add(sibling_offset);
    let ghost fq2 = fq@;
    let new_occupied = occupied_space - (removed_key.as_str().as_bytes().len() + 1 + PTR_SIZE);
    let new_node = Node::new(
        NodeKind::Internal { keys: new_keys, children: new_children, occupied_space: new_occupied },
        None,
    );
    let ghost keys2 = old_keys.remove(si);
    let ghost kids2 = old_children.remove(si + 1).update(si, new_child.0);
    proof {
        assert(keys_view(new_keys@) =~= keys2);
        assert(offsets_view(new_children@) =~= kids2);
        lemma_pair_replaced_intro(pre, mid, o, h, lo, hi, si, child_idx as int, key, old_fq, fq2);
        lemma_merged_ready(pre, mid, o, h, lo, hi, si, child_idx as int, key, old_fq, fq2, new_child);
        lemma_ready_parts(pre, mid, o, h, keys2, kids2, (h - 1) as nat, lo, hi, fq2);
        assert(storable(new_node@));
        assert(new_occupied == internal_space(keys2));
        assert(node_space(new_node@.kind) == internal_space(keys2));
        lemma_encode_fits(new_node@);
        if pre.wf() && pair_covered(
            pre.disk(),
            old_children[si] as int,
            old_children[si + 1] as int,
            (h - 1) as nat,
            mid.disk(),
            seq![new_child.0],
            (h - 1) as nat,
            old_fq,
        ) {
            lemma_cover_merged(pre, mid, o, h, lo, hi, si, new_child.0, old_fq, fq2);
        }
        if even_keys(old_keys, key.len()) {
            lemma_even_remove(old_keys, si, key.len());
        }
    }
    if new_occupied < UNDERFLOW_SPACE {
        proof {
            reveal(deleted);
        }
        Ok((removed_value, DeleteCOWStatus::DidUnderflow(new_node)))
    } else {
        let offset = write_node(pager, &new_node)?;
        fq.add(*node_offset);
        proof {
            lemma_grew_transitive(pre, mid, *pager);
            lemma_delete_one(pre, mid, *pager, o, h, lo, hi, keys2, kids2, offset, key, fq2, fq@);
            lemma_decode_space(page_at(pager.disk(), offset.0 as int));
            if covered(pre.disk(), o, h, mid.disk(), kids2, (h - 1) as nat, fq2) {
                lemma_account_node(
                    pre,
                    mid,
                    *pager,
                    o,
                    h,
                    keys2,
                    kids2,
                    (h - 1) as nat,
                    lo,
                    hi,
                    offset.0 as int,
                    fq2,
                    fq@,
                );
            }
            if fresh_snug(pre, mid, 0) {
                lemma_snug_more(pre, mid, *pager, offset.0 as int, 0, 0);
            }
            if even_at(pre.disk(), o, key.len()) && fresh_fit(pre, mid, 0, key.len()) {
                lemma_fresh_more(pre, mid, *pager, offset.0 as int, 0, offset.0 as int, key.len());
            }
        }
        Ok((removed_value, DeleteCOWStatus::NewOffset(offset)))
    }
}

/// Rewrites an internal node after the entries of its children `si` and
/// `si + 1` were shared out anew between the trees stored at `left` and
/// `right`: with the two in their places and `median_key`, which parts them,
/// as the separator between them.
#[verifier::rlimit(40)]
fn finish_redistribute(
    pager: &mut Pager,
    fq: &mut FreeQueue,
    keys: Vec<String>,
    children: Vec<Offset>,
    node_offset: &Offset,
    child_idx: usize,
    sibling_idx: usize,
    median_key: String,
    left: Offset,
    right: Offset,
    removed_value: Option<u64>,
    Ghost(pre): Ghost<Pager>,
    Ghost(h): Ghost<nat>,
    Ghost(lo): Ghost<Option<Key>>,
    Ghost(hi): Ghost<Option<Key>>,
    Ghost(key): Ghost<Key>,
) -> (r: Result<(Option<u64>, DeleteCOWStatus), Error>)
    requires
        old(pager).wf(),
        grew(pre, *old(pager)),
        subtree(pre.disk(), node_offset.0 as int, h, lo, hi),
        all_live(pre, node_offset.0 as int, h),
        node_at(pre.disk(), node_offset.0 as int)->Some_0.kind == (KindView::Internal {
            keys: keys_view(keys@),
            children: offsets_view(children@),
        }),
        child_idx < children@.len(),
        sibling_idx < children@.len(),
        sibling_idx == child_idx + 1 || child_idx == sibling_idx + 1,
        child_idx == route(keys_view(keys@), key),
        from_tree(pre.disk(), children@[child_idx as int].0 as int, (h - 1) as nat, old(fq)@),
        shared_for(
            pre,
            *old(pager),
            node_offset.0 as int,
            h,
            lo,
            hi,
            if child_idx < sibling_idx {
                child_idx as int
            } else {
                sibling_idx as int
            },
            key,
            old(fq)@,
            key_of(median_key@),
            left,
            right,
        ),
    ensures
        r is Err ==> r->Err_0 is UnexpectedError,
        r is Ok ==> written_anew(pre, final(fq)@, node_offset.0, r->Ok_0.1),
        r is Ok && pre.wf() && pair_covered(
            pre.disk(),
            children@[lower(child_idx, sibling_idx)].0 as int,
            children@[lower(child_idx, sibling_idx) + 1].0 as int,
            (h - 1) as nat,
            old(pager).disk(),
            seq![left.0, right.0],
            (h - 1) as nat,
            old(fq)@,
        ) ==> reclaimed_del(
            pre.disk(),
            node_offset.0 as int,
            h,
            final(pager).disk(),
            final(fq)@,
            r->Ok_0.1,
        ),
        r is Ok && fresh_snug(pre, *old(pager), 0) ==> fresh_snug(
            pre,
            *final(pager),
            r->Ok_0.1->NewOffset_0.0 as int,
        ),
        r is Ok ==> r->Ok_0.1 is NewOffset && space_at(
            final(pager).disk(),
            r->Ok_0.1->NewOffset_0.0 as int,
        ) == internal_space(
            keys_view(keys@).update(lower(child_idx, sibling_idx), key_of(median_key@)),
        ),
        r is Ok ==> final(fq)@.contains(children@[child_idx as int].0) && final(fq)@.contains(
            children@[sibling_idx as int].0,
        ),
        grew(pre, *final(pager)),
        from_tree(pre.disk(), node_offset.0 as int, h, final(fq)@),
        underflow_told(r),
        old(pager).curser <= final(pager).curser <= old(pager).curser + PAGE_SIZE,
        !(shared_up(
            keys_view(keys@),
            lower(child_idx, sibling_idx),
            key_of(median_key@),
        ) is Stuck) && room(*old(pager), 1) ==> r is Ok,
        r is Ok ==> told(
            r->Ok_0.1,
            shared_up(keys_view(keys@), lower(child_idx, sibling_idx), key_of(median_key@)),
        ),
        r is Ok && even_at(pre.disk(), node_offset.0 as int, key.len()) && fresh_fit(
            pre,
            *old(pager),
            0,
            key.len(),
        ) && key_of(median_key@).len() == key.len() ==> stays_full(
            pre,
            *final(pager),
            node_offset.0 as int,
            key.len(),
            r->Ok_0.1,
        ),
        r is Ok ==> r->Ok_0.0 == removed_value && deleted(
            pre,
            *final(pager),
            node_offset.0 as int,
            h,
            lo,
            hi,
            key,
            final(fq)@,
            r->Ok_0.1,
        ),
{
    let ghost mid = *pager;
    let ghost o = node_offset.0 as int;
    let ghost old_keys = keys_view(keys@);
    let ghost old_children = offsets_view(children@);
    let ghost old_fq = fq@;
    let ghost m = key_of(median_key@);
    let ghost si: int = if child_idx < sibling_idx {
        child_idx as int
    } else {
        sibling_idx as int
    };
    let child_offset = children[child_idx];
    let sibling_offset = children[sibling_idx];
    let separator = if child_idx < sibling_idx {
        child_idx
    } else {
        sibling_idx
    };
    proof {
        assert(old_children[child_idx as int] == child_offset.0);
        assert(old_children[sibling_idx as int] == sibling_offset.0);
        lemma_subtree_internal(pre.disk(), o, h, lo, hi);
    }
    let mut new_children = children;
    let mut new_keys = keys;
    new_children[separator] = left;
    new_children[separator + 1] = right;
    new_keys[separator] = median_key;
    fq.add(child_offset);
    fq.add(sibling_offset);
    let ghost fq2 = fq@;
    let new_node = Node::new(
        NodeKind::Internal { keys: new_keys, children: new_children, occupied_space: 0 },
        None,
    );
    let ghost keys2 = old_keys.update(si, m);
    let ghost kids2 = old_children.update(si, left.0).update(si + 1, right.0);
    proof {
        assert(keys_view(new_keys@) =~= keys2);
        assert(offsets_view(new_children@) =~= kids2);
        lemma_pair_replaced_intro(pre, mid, o, h, lo, hi, si, child_idx as int, key, old_fq, fq2);
        lemma_shared_ready(
            pre,
            mid,
            o,
            h,
            lo,
            hi,
            si,
            child_idx as int,
            key,
            old_fq,
            fq2,
            m,
            left,
            right,
        );
        lemma_ready_parts(pre, mid, o, h, keys2, kids2, (h - 1) as nat, lo, hi, fq2);
        assert(storable(new_node@));
        assert(node_space(new_node@.kind) == internal_space(keys2));
        if internal_space(keys2) <= PAGE_SIZE {
            lemma_encode_fits(new_node@);
        }
    }
    let offset = write_node(pager, &new_node)?;
    fq.add(*node_offset);
    proof {
        lemma_grew_transitive(pre, mid, *pager);
        lemma_delete_one(pre, mid, *pager, o, h, lo, hi, keys2, kids2, offset, key, fq2, fq@);
        lemma_decode_space(page_at(pager.disk(), offset.0 as int));
        if pre.wf() && pair_covered(
            pre.disk(),
            old_children[si] as int,
            old_children[si + 1] as int,
            (h - 1) as nat,
            mid.disk(),
            seq![left.0, right.0],
            (h - 1) as nat,
            old_fq,
        ) {
            lemma_cover_shared(pre, mid, o, h, lo, hi, si, left.0, right.0, old_fq, fq2);
            lemma_account_node(
                pre,
                mid,
                *pager,
                o,
                h,
                keys2,
                kids2,
                (h - 1) as nat,
                lo,
                hi,
                offset.0 as int,
                fq2,
                fq@,
            );
        }
        if fresh_snug(pre, mid, 0) {
            lemma_snug_more(pre, mid, *pager, offset.0 as int, 0, offset.0 as int);
        }
        if even_at(pre.disk(), o, key.len()) && fresh_fit(pre, mid, 0, key.len()) && m.len()
            == key.len() {
            lemma_even_update(old_keys, si, m, key.len());
            lemma_decode_space(page_at(pre.disk(), o));
            lemma_fresh_more(pre, mid, *pager, offset.0 as int, 0, offset.0 as int, key.len());
        }
    }
    Ok((removed_value, DeleteCOWStatus::NewOffset(offset)))
}

/// Whether the child `ci` of the sound node stored at `o`, one of its
/// children `si` and `si + 1`, was found to underflow by the deletion of
/// `key`, which took pages only and put pages of that child into `fq`.
#[verifier::opaque]
pub open spec fn pair_found(
    pre: Pager,
    cur: Pager,
    o: int,
    h: nat,
    lo: Option<Key>,
    hi: Option<Key>,
    si: int,
    ci: int,
    key: Key,
    fq: Seq<usize>,
) -> bool {
    let keys = node_at(pre.disk(), o)->Some_0.kind->Internal_keys;
    let children = node_at(pre.disk(), o)->Some_0.kind->Internal_children;
    &&& cur.wf()
    &&& subtree(pre.disk(), o, h, lo, hi)
    &&& node_at(pre.disk(), o)->Some_0.kind is Internal
    &&& all_live(pre, o, h)
    &&& grew(pre, cur)
    &&& 0 <= si
    &&& si + 1 < children.len()
    &&& (ci == si || ci == si + 1)
    &&& ci == route(keys, key)
    &&& from_tree(pre.disk(), children[ci] as int, (h - 1) as nat, fq)
    &&& !fq.contains(children[ci])
}

/// What `pair_found` says of the pages to give back: they are in use, and
/// are pages of the child that underflows, below its root.
#[verifier::rlimit(60)]
pub proof fn lemma_pair_found(
    pre: Pager,
    cur: Pager,
    o: int,
    h: nat,
    lo: Option<Key>,
    hi: Option<Key>,
    si: int,
    ci: int,
    key: Key,
    fq: Seq<usize>,
)
    requires
        pair_found(pre, cur, o, h, lo, hi, si, ci, key, fq),
    ensures
        cur.wf(),
        grew(pre, cur),
        h > 0,
        pair_below(pre, cur, o, h, lo, hi, si, fq),
        live(pre, node_at(pre.disk(), o)->Some_0.kind->Internal_children[si] as int),
        live(pre, node_at(pre.disk(), o)->Some_0.kind->Internal_children[si + 1] as int),
        forall|x: usize|
            fq.contains(x) ==> live(pre, x as int) && in_subtree(
                pre.disk(),
                node_at(pre.disk(), o)->Some_0.kind->Internal_children[ci] as int,
                (h - 1) as nat,
                x as int,
            ) && !in_subtree(
                pre.disk(),
                node_at(pre.disk(), o)->Some_0.kind->Internal_children[2 * si + 1 - ci] as int,
                (h - 1) as nat,
                x as int,
            ),
        forall|k: Key|
            route(node_at(pre.disk(), o)->Some_0.kind->Internal_keys, k) == si ==> #[trigger] lookup(
                pre.disk(),
                o,
                h,
                k,
            ) == lookup(
                pre.disk(),
                node_at(pre.disk(), o)->Some_0.kind->Internal_children[si] as int,
                (h - 1) as nat,
                k,
            ) && key_lt(k, node_at(pre.disk(), o)->Some_0.kind->Internal_keys[si]),
        forall|k: Key|
            route(node_at(pre.disk(), o)->Some_0.kind->Internal_keys, k) == si + 1
                ==> #[trigger] lookup(pre.disk(), o, h, k) == lookup(
                pre.disk(),
                node_at(pre.disk(), o)->Some_0.kind->Internal_children[si + 1] as int,
                (h - 1) as nat,
                k,
            ) && !key_lt(k, node_at(pre.disk(), o)->Some_0.kind->Internal_keys[si]),
{
    reveal(pair_found);
    let keys = node_at(pre.disk(), o)->Some_0.kind->Internal_keys;
    let children = node_at(pre.disk(), o)->Some_0.kind->Internal_children;
    let hc = (h - 1) as nat;
    let c = children[ci] as int;
    let s = children[2 * si + 1 - ci] as int;
    lemma_subtree_internal(pre.disk(), o, h, lo, hi);
    assert(in_subtree(pre.disk(), children[si] as int, hc, children[si] as int));
    assert(in_subtree(pre.disk(), children[si + 1] as int, hc, children[si + 1] as int));
    assert(in_subtree(pre.disk(), o, h, children[si] as int));
    assert(in_subtree(pre.disk(), o, h, children[si + 1] as int));
    assert(pages(pre.disk(), children[si] as int, hc).disjoint(
        pages(pre.disk(), children[si + 1] as int, hc),
    ));
    assert forall|x: usize| fq.contains(x) implies live(pre, x as int) && in_subtree(
        pre.disk(),
        c,
        hc,
        x as int,
    ) && !in_subtree(pre.disk(), s, hc, x as int) by {
        let i = choose|i: int| 0 <= i < fq.len() && fq[i] == x;
        assert(in_subtree(pre.disk(), c, hc, fq[i] as int));
        assert(in_subtree(pre.disk(), o, h, x as int));
        assert(pages(pre.disk(), c, hc).contains(x as int));
        if in_subtree(pre.disk(), s, hc, x as int) {
            assert(pages(pre.disk(), s, hc).contains(x as int));
        }
    }
    assert forall|k: Key| route(keys, k) == si implies #[trigger] lookup(pre.disk(), o, h, k)
        == lookup(pre.disk(), children[si] as int, hc, k) && key_lt(k, keys[si]) by {
        lemma_route_props(keys, k);
        assert(lookup(pre.disk(), o, h, k) == lookup_under(pre.disk(), keys, children, hc, k));
    }
    assert forall|k: Key| route(keys, k) == si + 1 implies #[trigger] lookup(pre.disk(), o, h, k)
        == lookup(pre.disk(), children[si + 1] as int, hc, k) && !key_lt(k, keys[si]) by {
        lemma_route_props(keys, k);
        assert(lookup(pre.disk(), o, h, k) == lookup_under(pre.disk(), keys, children, hc, k));
    }
}

/// Whether `left` and `right` are the pairs of two neighbouring leaves below
/// the sound node stored at `o`, the children `si` and `si + 1`, as they
/// are after `key` was taken out of the one of them that is the child `ci`.
pub open spec fn leaves_found(
    pre: Pager,
    o: int,
    h: nat,
    lo: Option<Key>,
    hi: Option<Key>,
    si: int,
    ci: int,
    key: Key,
    left: Seq<(Key, u64)>,
    right: Seq<(Key, u64)>,
) -> bool {
    let keys = node_at(pre.disk(), o)->Some_0.kind->Internal_keys;
    let children = node_at(pre.disk(), o)->Some_0.kind->Internal_children;
    &&& h == 1
    &&& leaf_ok(left, child_lo(keys, lo, si), Some(keys[si]))
    &&& leaf_ok(right, Some(keys[si]), child_hi(keys, hi, si + 1))
    &&& left.len() <= PAGE_SIZE
    &&& right.len() <= PAGE_SIZE
    &&& forall|k: Key| #[trigger]
        pairs_get(left, k) == if ci == si {
            without(pre.disk(), children[si] as int, 0, key, k)
        } else {
            lookup(pre.disk(), children[si] as int, 0, k)
        }
    &&& forall|k: Key| #[trigger]
        pairs_get(right, k) == if ci == si + 1 {
            without(pre.disk(), children[si + 1] as int, 0, key, k)
        } else {
            lookup(pre.disk(), children[si + 1] as int, 0, k)
        }
}

/// The pairs of two neighbouring leaves, one after the other, are the pairs
/// of a leaf within the bounds of the two, and give each key that the node
/// led to one of the two what the deletion asks for.
#[verifier::rlimit(60)]
pub proof fn lemma_leaves_joined(
    pre: Pager,
    cur: Pager,
    o: int,
    h: nat,
    lo: Option<Key>,
    hi: Option<Key>,
    si: int,
    ci: int,
    key: Key,
    fq: Seq<usize>,
    left: Seq<(Key, u64)>,
    right: Seq<(Key, u64)>,
)
    requires
        pair_found(pre, cur, o, h, lo, hi, si, ci, key, fq),
        leaves_found(pre, o, h, lo, hi, si, ci, key, left, right),
    ensures
        leaf_ok(
            left + right,
            child_lo(node_at(pre.disk(), o)->Some_0.kind->Internal_keys, lo, si),
            child_hi(node_at(pre.disk(), o)->Some_0.kind->Internal_keys, hi, si + 1),
        ),
        forall|k: Key|
            route(node_at(pre.disk(), o)->Some_0.kind->Internal_keys, k) == si || route(
                node_at(pre.disk(), o)->Some_0.kind->Internal_keys,
                k,
            ) == si + 1 ==> #[trigger] pairs_get(left + right, k) == without(
                pre.disk(),
                o,
                h,
                key,
                k,
            ),
{
    reveal(pair_found);
    let keys = node_at(pre.disk(), o)->Some_0.kind->Internal_keys;
    let children = node_at(pre.disk(), o)->Some_0.kind->Internal_children;
    let sep = keys[si];
    let all = left + right;
    let llo = child_lo(keys, lo, si);
    let rhi = child_hi(keys, hi, si + 1);
    lemma_subtree_internal(pre.disk(), o, h, lo, hi);
    lemma_pair_found(pre, cur, o, h, lo, hi, si, ci, key, fq);
    assert(above(llo, sep)) by {
        if si > 0 {
            assert(key_lt(keys[si - 1], keys[si]));
        }
    }
    assert(below(sep, rhi)) by {
        if si + 1 < keys.len() {
            assert(key_lt(keys[si], keys[si + 1]));
        }
    }
    assert forall|i: int| 0 <= i < left.len() implies key_lt((#[trigger] left[i]).0, sep) by {
        assert(below(left[i].0, Some(sep)));
    }
    assert forall|i: int| 0 <= i < right.len() implies key_le(sep, (#[trigger] right[i]).0) by {
        assert(at_or_above(Some(sep), right[i].0));
    }
    lemma_pairs_concat(left, right, sep);
    assert forall|i: int| 0 <= i < all.len() implies key_storable((#[trigger] all[i]).0)
        && at_or_above(llo, all[i].0) && below(all[i].0, rhi) by {
        if i < left.len() {
            assert(all[i] == left[i]);
            assert(below(left[i].0, Some(sep)));
            if rhi is Some {
                lemma_key_lt_transitive(left[i].0, sep, rhi->Some_0);
            }
        } else {
            assert(all[i] == right[i - left.len()]);
            assert(at_or_above(Some(sep), right[i - left.len()].0));
            if llo is Some {
                lemma_key_le_lt(llo->Some_0, sep, right[i - left.len()].0);
            }
        }
    }
    assert forall|k: Key| route(keys, k) == si || route(keys, k) == si + 1 implies #[trigger] pairs_get(
        all,
        k,
    ) == without(pre.disk(), o, h, key, k) by {
        assert(pairs_get(all, k) == if key_lt(k, sep) {
            pairs_get(left, k)
        } else {
            pairs_get(right, k)
        });
        assert(lookup(pre.disk(), o, h, k) == lookup(pre.disk(), o, h, k));
        if route(keys, k) == si {
            assert(pairs_get(left, k) == if ci == si {
                without(pre.disk(), children[si] as int, 0, key, k)
            } else {
                lookup(pre.disk(), children[si] as int, 0, k)
            });
        } else {
            assert(pairs_get(right, k) == if ci == si + 1 {
                without(pre.disk(), children[si + 1] as int, 0, key, k)
            } else {
                lookup(pre.disk(), children[si + 1] as int, 0, k)
            });
        }
    }
}

/// A leaf written to a page that was not in use, with the pairs of two
/// neighbouring leaves, is there to take the place of the two.
#[verifier::rlimit(60)]
pub proof fn lemma_leaf_merged(
    pre: Pager,
    cur: Pager,
    post: Pager,
    o: int,
    h: nat,
    lo: Option<Key>,
    hi: Option<Key>,
    si: int,
    ci: int,
    key: Key,
    fq: Seq<usize>,
    n: Offset,
)
    requires
        pair_found(pre, cur, o, h, lo, hi, si, ci, key, fq),
        h == 1,
        grew(cur, post),
        !live(cur, n.0 as int),
        live(post, n.0 as int),
        node_at(post.disk(), n.0 as int) is Some,
        node_at(post.disk(), n.0 as int)->Some_0.kind is Leaf,
        space_at(post.disk(), n.0 as int) <= PAGE_SIZE,
        leaf_ok(
            node_at(post.disk(), n.0 as int)->Some_0.kind->Leaf_pairs,
            child_lo(node_at(pre.disk(), o)->Some_0.kind->Internal_keys, lo, si),
            child_hi(node_at(pre.disk(), o)->Some_0.kind->Internal_keys, hi, si + 1),
        ),
        forall|k: Key|
            route(node_at(pre.disk(), o)->Some_0.kind->Internal_keys, k) == si || route(
                node_at(pre.disk(), o)->Some_0.kind->Internal_keys,
                k,
            ) == si + 1 ==> #[trigger] pairs_get(
                node_at(post.disk(), n.0 as int)->Some_0.kind->Leaf_pairs,
                k,
            ) == without(pre.disk(), o, h, key, k),
    ensures
        merged_for(pre, post, o, h, lo, hi, si, key, fq, n),
{
    reveal(pair_found);
    reveal(merged_for);
    let keys = node_at(pre.disk(), o)->Some_0.kind->Internal_keys;
    let children = node_at(pre.disk(), o)->Some_0.kind->Internal_children;
    let pairs = node_at(post.disk(), n.0 as int)->Some_0.kind->Leaf_pairs;
    lemma_pair_found(pre, cur, o, h, lo, hi, si, ci, key, fq);
    lemma_leaf_subtree(post.disk(), n.0 as int, child_lo(keys, lo, si), child_hi(keys, hi, si + 1));
    assert(!live(pre, n.0 as int)) by {
        if live(pre, n.0 as int) {
            assert(live(cur, n.0 as int));
        }
    }
    assert forall|p: int| #[trigger] in_subtree(post.disk(), n.0 as int, 0, p) implies live(post, p)
        && (in_subtree(pre.disk(), children[si] as int, 0, p) || in_subtree(
        pre.disk(),
        children[si + 1] as int,
        0,
        p,
    ) || !live(pre, p)) && !fq.contains(p as usize) by {
        assert(p == n.0);
    }
    assert forall|k: Key| #[trigger]
        lookup(post.disk(), n.0 as int, 0, k) == without(pre.disk(), o, h, key, k) || !(route(
            keys,
            k,
        ) == si || route(keys, k) == si + 1) by {
        if route(keys, k) == si || route(keys, k) == si + 1 {
            assert(pairs_get(pairs, k) == without(pre.disk(), o, h, key, k));
        }
    }
}

/// Two leaves written to pages that were not in use, with the pairs of two
/// neighbouring leaves cut in two, are there to take the place of the two.
#[verifier::rlimit(60)]
pub proof fn lemma_leaves_shared(
    pre: Pager,
    cur: Pager,
    pa: Pager,
    post: Pager,
    o: int,
    h: nat,
    lo: Option<Key>,
    hi: Option<Key>,
    si: int,
    ci: int,
    key: Key,
    fq: Seq<usize>,
    all: Seq<(Key, u64)>,
    cut: int,
    a: Offset,
    b: Offset,
)
    requires
        pair_found(pre, cur, o, h, lo, hi, si, ci, key, fq),
        h == 1,
        grew(cur, pa),
        grew(pa, post),
        !live(cur, a.0 as int),
        live(pa, a.0 as int),
        !live(pa, b.0 as int),
        live(post, b.0 as int),
        1 <= cut < all.len(),
        leaf_ok(
            all,
            child_lo(node_at(pre.disk(), o)->Some_0.kind->Internal_keys, lo, si),
            child_hi(node_at(pre.disk(), o)->Some_0.kind->Internal_keys, hi, si + 1),
        ),
        forall|k: Key|
            route(node_at(pre.disk(), o)->Some_0.kind->Internal_keys, k) == si || route(
                node_at(pre.disk(), o)->Some_0.kind->Internal_keys,
                k,
            ) == si + 1 ==> #[trigger] pairs_get(all, k) == without(pre.disk(), o, h, key, k),
        node_at(pa.disk(), a.0 as int) is Some,
        node_at(pa.disk(), a.0 as int)->Some_0.kind is Leaf,
        space_at(pa.disk(), a.0 as int) <= PAGE_SIZE,
        node_at(pa.disk(), a.0 as int)->Some_0.kind->Leaf_pairs == all.subrange(0, cut),
        node_at(post.disk(), b.0 as int) is Some,
        node_at(post.disk(), b.0 as int)->Some_0.kind is Leaf,
        space_at(post.disk(), b.0 as int) <= PAGE_SIZE,
        node_at(post.disk(), b.0 as int)->Some_0.kind->Leaf_pairs == all.subrange(
            cut,
            all.len() as int,
        ),
    ensures
        shared_for(pre, post, o, h, lo, hi, si, key, fq, all[cut].0, a, b),
{
    reveal(pair_found);
    reveal(shared_for);
    let keys = node_at(pre.disk(), o)->Some_0.kind->Internal_keys;
    let children = node_at(pre.disk(), o)->Some_0.kind->Internal_children;
    let m = all[cut].0;
    let llo = child_lo(keys, lo, si);
    let rhi = child_hi(keys, hi, si + 1);
    lemma_pair_found(pre, cur, o, h, lo, hi, si, ci, key, fq);
    lemma_leaf_ok_split(all, cut, llo, rhi);
    assert(page_at(post.disk(), a.0 as int) == page_at(pa.disk(), a.0 as int));
    assert(node_at(post.disk(), a.0 as int) == node_at(pa.disk(), a.0 as int));
    lemma_leaf_subtree(post.disk(), a.0 as int, llo, Some(m));
    lemma_leaf_subtree(post.disk(), b.0 as int, Some(m), rhi);
    lemma_grew_transitive(cur, pa, post);
    assert(!live(pre, a.0 as int)) by {
        if live(pre, a.0 as int) {
            assert(live(cur, a.0 as int));
        }
    }
    assert(!live(pre, b.0 as int)) by {
        if live(pre, b.0 as int) {
            assert(live(cur, b.0 as int));
            assert(live(pa, b.0 as int));
        }
    }
    assert forall|p: int| #[trigger] in_subtree(post.disk(), a.0 as int, 0, p) implies live(post, p)
        && (in_subtree(pre.disk(), children[si] as int, 0, p) || in_subtree(
        pre.disk(),
        children[si + 1] as int,
        0,
        p,
    ) || !live(pre, p)) && !fq.contains(p as usize) by {
        assert(p == a.0);
    }
    assert forall|p: int| #[trigger] in_subtree(post.disk(), b.0 as int, 0, p) implies live(post, p)
        && (in_subtree(pre.disk(), children[si] as int, 0, p) || in_subtree(
        pre.disk(),
        children[si + 1] as int,
        0,
        p,
    ) || !live(pre, p)) && !fq.contains(p as usize) by {
        assert(p == b.0);
    }
    assert(pages(post.disk(), a.0 as int, 0).disjoint(pages(post.disk(), b.0 as int, 0)));
    assert forall|k: Key| #[trigger]
        split_lookup(post.disk(), m, a.0 as int, b.0 as int, 0, k) == without(
            pre.disk(),
            o,
            h,
            key,
            k,
        ) || !(route(keys, k) == si || route(keys, k) == si + 1) by {
        if route(keys, k) == si || route(keys, k) == si + 1 {
            assert(pairs_get(all, k) == without(pre.disk(), o, h, key, k));
            assert(pairs_get(all, k) == if key_lt(k, m) {
                pairs_get(all.subrange(0, cut), k)
            } else {
                pairs_get(all.subrange(cut, all.len() as int), k)
            });
        }
    }
}

/// The smaller of two indices of neighbours.
pub open spec fn lower(child_idx: usize, sibling_idx: usize) -> int {
    if child_idx < sibling_idx {
        child_idx as int
    } else {
        sibling_idx as int
    }
}

/// Replaces a leaf that underflows and the leaf next to it, below the node
/// stored at `node_offset`: by one leaf with the pairs of both where that
/// fits a page, else by two leaves between which the pairs of both are shared
/// out anew; and rewrites the node for it.
#[verifier::rlimit(40)]
fn rebalance_leaves(
    pager: &mut Pager,
    fq: &mut FreeQueue,
    keys: Vec<String>,
    children: Vec<Offset>,
    occupied_space: usize,
    node_offset: &Offset,
    child_idx: usize,
    sibling_idx: usize,
    child_pairs: Vec<KeyValuePair>,
    child_occupied: usize,
    sibling_pairs: Vec<KeyValuePair>,
    sibling_occupied: usize,
    removed_value: Option<u64>,
    Ghost(pre): Ghost<Pager>,
    Ghost(h): Ghost<nat>,
    Ghost(lo): Ghost<Option<Key>>,
    Ghost(hi): Ghost<Option<Key>>,
    Ghost(key): Ghost<Key>,
) -> (r: Result<(Option<u64>, DeleteCOWStatus), Error>)
    requires
        old(pager).wf(),
        subtree(pre.disk(), node_offset.0 as int, h, lo, hi),
        all_live(pre, node_offset.0 as int, h),
        node_at(pre.disk(), node_offset.0 as int)->Some_0.kind == (KindView::Internal {
            keys: keys_view(keys@),
            children: offsets_view(children@),
        }),
        occupied_space == space_at(pre.disk(), node_offset.0 as int),
        child_idx < children@.len(),
        sibling_idx < children@.len(),
        sibling_idx == child_idx + 1 || child_idx == sibling_idx + 1,
        child_idx == route(keys_view(keys@), key),
        from_tree(pre.disk(), children@[child_idx as int].0 as int, (h - 1) as nat, old(fq)@),
        child_occupied < UNDERFLOW_SPACE,
        sibling_occupied <= PAGE_SIZE,
        child_occupied == LEAF_HEADER_SIZE + pairs_space(pairs_view(child_pairs@)) + 1,
        sibling_occupied == LEAF_HEADER_SIZE + pairs_space(pairs_view(sibling_pairs@)) + 1,
        pair_found(
            pre,
            *old(pager),
            node_offset.0 as int,
            h,
            lo,
            hi,
            lower(child_idx, sibling_idx),
            child_idx as int,
            key,
            old(fq)@,
        ),
        leaves_found(
            pre,
            node_offset.0 as int,
            h,
            lo,
            hi,
            lower(child_idx, sibling_idx),
            child_idx as int,
            key,
            if child_idx < sibling_idx {
                pairs_view(child_pairs@)
            } else {
                pairs_view(sibling_pairs@)
            },
            if child_idx < sibling_idx {
                pairs_view(sibling_pairs@)
            } else {
                pairs_view(child_pairs@)
            },
        ),
    ensures
        r is Err ==> r->Err_0 is UnexpectedError,
        r is Ok ==> written_anew(pre, final(fq)@, node_offset.0, r->Ok_0.1),
        r is Ok && pre.wf() ==> reclaimed_del(
            pre.disk(),
            node_offset.0 as int,
            h,
            final(pager).disk(),
            final(fq)@,
            r->Ok_0.1,
        ),
        r is Ok && fresh_snug(pre, *old(pager), 0) && sibling_occupied >= UNDERFLOW_SPACE
            && halves_snug(
            keys_view(keys@),
            lower(child_idx, sibling_idx),
            pair_keys(
                if child_idx < sibling_idx {
                    pairs_view(child_pairs@)
                } else {
                    pairs_view(sibling_pairs@)
                },
            ),
            pair_keys(
                if child_idx < sibling_idx {
                    pairs_view(sibling_pairs@)
                } else {
                    pairs_view(child_pairs@)
                },
            ),
            true,
        ) ==> fresh_snug(pre, *final(pager), spared(r->Ok_0.1)),
        r is Ok && r->Ok_0.1 is NewOffset ==> space_at(
            final(pager).disk(),
            r->Ok_0.1->NewOffset_0.0 as int,
        ) == up_space(
            keys_view(keys@),
            lower(child_idx, sibling_idx),
            pair_keys(
                if child_idx < sibling_idx {
                    pairs_view(child_pairs@)
                } else {
                    pairs_view(sibling_pairs@)
                },
            ),
            pair_keys(
                if child_idx < sibling_idx {
                    pairs_view(sibling_pairs@)
                } else {
                    pairs_view(child_pairs@)
                },
            ),
            true,
        ),
        r is Ok ==> final(fq)@.contains(children@[child_idx as int].0) && final(fq)@.contains(
            children@[sibling_idx as int].0,
        ),
        grew(pre, *final(pager)),
        from_tree(pre.disk(), node_offset.0 as int, h, final(fq)@),
        underflow_told(r),
        old(pager).curser <= final(pager).curser <= old(pager).curser + 3 * PAGE_SIZE,
        r is Ok && even_at(pre.disk(), node_offset.0 as int, key.len()) && fresh_fit(
            pre,
            *old(pager),
            0,
            key.len(),
        ) && even_keys(pair_keys(pairs_view(child_pairs@)), key.len()) && even_keys(
            pair_keys(pairs_view(sibling_pairs@)),
            key.len(),
        ) && sibling_occupied >= UNDERFLOW_SPACE ==> stays_full(
            pre,
            *final(pager),
            node_offset.0 as int,
            key.len(),
            r->Ok_0.1,
        ),
        !(leaves_plan(
            keys_view(keys@),
            lower(child_idx, sibling_idx),
            pair_keys(
                if child_idx < sibling_idx {
                    pairs_view(child_pairs@)
                } else {
                    pairs_view(sibling_pairs@)
                },
            ),
            pair_keys(
                if child_idx < sibling_idx {
                    pairs_view(sibling_pairs@)
                } else {
                    pairs_view(child_pairs@)
                },
            ),
        ) is Stuck) && room(*old(pager), 3) ==> r is Ok,
        r is Ok ==> told(r->Ok_0.1, leaves_plan(
            keys_view(keys@),
            lower(child_idx, sibling_idx),
            pair_keys(
                if child_idx < sibling_idx {
                    pairs_view(child_pairs@)
                } else {
                    pairs_view(sibling_pairs@)
                },
            ),
            pair_keys(
                if child_idx < sibling_idx {
                    pairs_view(sibling_pairs@)
                } else {
                    pairs_view(child_pairs@)
                },
            ),
        )),
        r is Ok ==> r->Ok_0.0 == removed_value && deleted(
            pre,
            *final(pager),
            node_offset.0 as int,
            h,
            lo,
            hi,
            key,
            final(fq)@,
            r->Ok_0.1,
        ),
{
    let ghost mid = *pager;
    let ghost o = node_offset.0 as int;
    let ghost si = lower(child_idx, sibling_idx);
    let ghost ci = child_idx as int;
    let ghost old_fq = fq@;
    let ghost old_keys = keys_view(keys@);
    let mut left = child_pairs;
    let mut right = sibling_pairs;
    if sibling_idx < child_idx {
        core::mem::swap(&mut left, &mut right);
    }
    let ghost lv = pairs_view(left@);
    let ghost rv = pairs_view(right@);
    let ghost all = lv + rv;
    left.append(&mut right);
    let ghost lk = pair_keys(lv);
    let ghost rk = pair_keys(rv);
    proof {
        assert(pairs_view(left@) =~= all);
        lemma_pair_found(pre, mid, o, h, lo, hi, si, ci, key, old_fq);
        lemma_leaves_joined(pre, mid, o, h, lo, hi, si, ci, key, old_fq, lv, rv);
        lemma_from_tree_up(pre.disk(), o, h, lo, hi, ci, old_fq);
        assert(offsets_view(children@)[ci] == children@[ci].0);
        lemma_leaf_space(lv);
        lemma_leaf_space(rv);
        lemma_pairs_space_concat(lv, rv);
        assert(pair_keys(all) =~= lk + rk);
        lemma_pairs_space_nonneg(lv);
        lemma_pairs_space_nonneg(rv);
        if even_keys(lk, key.len()) && even_keys(rk, key.len()) {
            lemma_even_concat(lk, rk, key.len());
        }
    }
    let ghost even = even_at(pre.disk(), o, key.len()) && fresh_fit(pre, mid, 0, key.len())
        && even_keys(lk, key.len()) && even_keys(rk, key.len()) && sibling_occupied
        >= UNDERFLOW_SPACE;
    if sibling_occupied + child_occupied < PAGE_SIZE + LEAF_HEADER_SIZE {
        let merged = Node::new(
            NodeKind::Leaf {
                next: None,
                previous: None,
                key_value_pairs: left,
                occupied_space: 0,
            },
            None,
        );
        proof {
            assert(storable(merged@));
            lemma_encode_fits(merged@);
        }
        let new_child = write_node(pager, &merged)?;
        proof {
            lemma_grew_transitive(pre, mid, *pager);
            lemma_leaf_merged(pre, mid, *pager, o, h, lo, hi, si, ci, key, old_fq, new_child);
            lemma_decode_space(page_at(pager.disk(), new_child.0 as int));
            assert(pair_covered(
                pre.disk(),
                offsets_view(children@)[si] as int,
                offsets_view(children@)[si + 1] as int,
                (h - 1) as nat,
                pager.disk(),
                seq![new_child.0],
                (h - 1) as nat,
                old_fq,
            ));
            if fresh_snug(pre, mid, 0) && sibling_occupied >= UNDERFLOW_SPACE {
                lemma_snug_more(pre, mid, *pager, new_child.0 as int, 0, 0);
            }
            if even {
                lemma_fresh_more(pre, mid, *pager, new_child.0 as int, 0, 0, key.len());
            }
        }
        finish_merge(
            pager,
            fq,
            keys,
            children,
            occupied_space,
            node_offset,
            child_idx,
            sibling_idx,
            new_child,
            removed_value,
            Ghost(pre),
            Ghost(h),
            Ghost(lo),
            Ghost(hi),
            Ghost(key),
        )
    } else {
        proof {
            assert forall|i: int| 0 <= i < all.len() implies (#[trigger] pair_keys(all)[i]).len()
                <= KEY_MAX_SIZE by {
                assert(key_storable(all[i].0));
            }
            lemma_key_bytes_bound(pair_keys(all), all.len() as int);
            assert(keys_sized(pair_keys(all))) by {
                assert forall|i: int| 0 <= i < all.len() implies 1 <= (#[trigger] pair_keys(
                    all,
                )[i]).len() <= KEY_MAX_SIZE by {
                    assert(key_storable(all[i].0));
                }
            }
            lemma_full_leaf_median(all, 1 + KEY_MAX_SIZE + VALUE_SIZE);
        }
        let (median_key, rest) = split_key_value_pairs(&mut left)?;
        let ghost cut = left@.len() as int;
        let first = Node::new(
            NodeKind::Leaf {
                next: None,
                previous: None,
                key_value_pairs: left,
                occupied_space: 0,
            },
            None,
        );
        let second = Node::new(
            NodeKind::Leaf {
                next: None,
                previous: None,
                key_value_pairs: rest,
                occupied_space: 0,
            },
            None,
        );
        proof {
            assert(pairs_view(left@) =~= all.subrange(0, cut));
            assert(pairs_view(rest@) =~= all.subrange(cut, all.len() as int));
            assert(all[cut].0 == key_of(median_key@));
            lemma_leaf_ok_split(
                all,
                cut,
                child_lo(old_keys, lo, si),
                child_hi(old_keys, hi, si + 1),
            );
            assert(storable(first@));
            assert(storable(second@));
            lemma_median_one(lk + rk, cut);
            assert((lk + rk).subrange(0, cut) =~= pair_keys(all.subrange(0, cut)));
            assert((lk + rk).subrange(cut, (lk + rk).len() as int) =~= pair_keys(
                all.subrange(cut, all.len() as int),
            ));
            lemma_leaf_space(all.subrange(0, cut));
            lemma_leaf_space(all.subrange(cut, all.len() as int));
            if leaf_space((lk + rk).subrange(0, cut)) <= PAGE_SIZE {
                lemma_encode_fits(first@);
            }
            if leaf_space((lk + rk).subrange(cut, (lk + rk).len() as int)) <= PAGE_SIZE {
                lemma_encode_fits(second@);
            }
        }
        let a = write_node(pager, &first)?;
        let ghost pa = *pager;
        let written = write_node(pager, &second);
        proof {
            lemma_grew_transitive(pre, mid, pa);
            lemma_grew_transitive(pre, pa, *pager);
        }
        let b = written?;
        proof {
            lemma_decode_space(page_at(pa.disk(), a.0 as int));
            lemma_decode_space(page_at(pager.disk(), b.0 as int));
            assert((lk + rk)[cut] == key_of(median_key@));
            assert(pair_covered(
                pre.disk(),
                offsets_view(children@)[si] as int,
                offsets_view(children@)[si + 1] as int,
                (h - 1) as nat,
                pager.disk(),
                seq![a.0, b.0],
                (h - 1) as nat,
                old_fq,
            ));
            if fresh_snug(pre, mid, 0) && halves_snug(old_keys, si, lk, rk, true) {
                lemma_snug_more(pre, mid, pa, a.0 as int, 0, 0);
                lemma_snug_more(pre, pa, *pager, b.0 as int, 0, 0);
            }
            if even {
                lemma_leaf_space(all);
                lemma_even_leaf_halves(lk + rk, cut, key.len());
                lemma_even_part(lk + rk, 0, cut, key.len());
                lemma_even_part(lk + rk, cut, (lk + rk).len() as int, key.len());
                lemma_fresh_more(pre, mid, pa, a.0 as int, 0, 0, key.len());
                lemma_fresh_more(pre, pa, *pager, b.0 as int, 0, 0, key.len());
                assert((lk + rk)[cut] == key_of(median_key@));
            }
            lemma_leaves_shared(
                pre,
                mid,
                pa,
                *pager,
                o,
                h,
                lo,
                hi,
                si,
                ci,
                key,
                old_fq,
                all,
                cut,
                a,
                b,
            );
        }
        finish_redistribute(
            pager,
            fq,
            keys,
            children,
            node_offset,
            child_idx,
            sibling_idx,
            median_key,
            a,
            b,
            removed_value,
            Ghost(pre),
            Ghost(h),
            Ghost(lo),
            Ghost(hi),
            Ghost(key),
        )
    }
}

/// Whether `keys` and `kids` are the separators and children of an
/// internal node that underflows, the child `ci` of the sound node stored at
/// `o`, as they are after `key` was taken out below it.
#[verifier::opaque]
pub open spec fn internal_found(
    pre: Pager,
    cur: Pager,
    o: int,
    h: nat,
    lo: Option<Key>,
    hi: Option<Key>,
    ci: int,
    key: Key,
    fq: Seq<usize>,
    keys: Seq<Key>,
    kids: Seq<usize>,
) -> bool {
    let up_keys = node_at(pre.disk(), o)->Some_0.kind->Internal_keys;
    let up_kids = node_at(pre.disk(), o)->Some_0.kind->Internal_children;
    &&& h >= 2
    &&& keys.len() <= PAGE_SIZE
    &&& ready(
        pre,
        cur,
        up_kids[ci] as int,
        (h - 1) as nat,
        keys,
        kids,
        (h - 2) as nat,
        child_lo(up_keys, lo, ci),
        child_hi(up_keys, hi, ci),
        fq,
    )
    &&& forall|k: Key| #[trigger]
        lookup_under(cur.disk(), keys, kids, (h - 2) as nat, k) == without(
            pre.disk(),
            up_kids[ci] as int,
            (h - 1) as nat,
            key,
            k,
        )
}

/// Whether `keys` and `kids` are ready to be written as one node, or cut
/// and written as two, in the place of the children `si` and `si + 1` of the
/// sound node stored at `o`, for the deletion of `key`: they are ready within
/// the bounds of the two, each child is kept for the two, and each key that
/// the node led to one of the two is given what the deletion asks for.
#[verifier::opaque]
pub open spec fn joined_for(
    pre: Pager,
    cur: Pager,
    o: int,
    h: nat,
    lo: Option<Key>,
    hi: Option<Key>,
    si: int,
    key: Key,
    fq: Seq<usize>,
    keys: Seq<Key>,
    kids: Seq<usize>,
) -> bool {
    let up_keys = node_at(pre.disk(), o)->Some_0.kind->Internal_keys;
    let up_kids = node_at(pre.disk(), o)->Some_0.kind->Internal_children;
    &&& h >= 2
    &&& ready(
        pre,
        cur,
        o,
        h,
        keys,
        kids,
        (h - 2) as nat,
        child_lo(up_keys, lo, si),
        child_hi(up_keys, hi, si + 1),
        fq,
    )
    &&& forall|i: int|
        0 <= i < kids.len() ==> kept(
            pre,
            cur,
            up_kids[si] as int,
            up_kids[si + 1] as int,
            (h - 1) as nat,
            #[trigger] kids[i] as int,
            (h - 2) as nat,
            fq,
        )
    &&& forall|k: Key| #[trigger]
        lookup_under(cur.disk(), keys, kids, (h - 2) as nat, k) == without(
            pre.disk(),
            o,
            h,
            key,
            k,
        ) || !(route(up_keys, k) == si || route(up_keys, k) == si + 1)
}

/// The separators and children of the neighbour of a child that underflows
/// are ready below what takes the place of the node above, are kept for the
/// two, share no page with the children of the child that underflows, and
/// give each key what the neighbour gave it.
#[verifier::rlimit(60)]
pub proof fn lemma_sibling_side(
    pre: Pager,
    cur: Pager,
    o: int,
    h: nat,
    lo: Option<Key>,
    hi: Option<Key>,
    si: int,
    ci: int,
    key: Key,
    fq: Seq<usize>,
    keys: Seq<Key>,
    kids: Seq<usize>,
)
    requires
        pair_found(pre, cur, o, h, lo, hi, si, ci, key, fq),
        internal_found(pre, cur, o, h, lo, hi, ci, key, fq, keys, kids),
        node_at(
            pre.disk(),
            node_at(pre.disk(), o)->Some_0.kind->Internal_children[2 * si + 1 - ci] as int,
        )->Some_0.kind is Internal,
    ensures
        ready(
            pre,
            cur,
            o,
            h,
            node_at(
                pre.disk(),
                node_at(pre.disk(), o)->Some_0.kind->Internal_children[2 * si + 1 - ci] as int,
            )->Some_0.kind->Internal_keys,
            node_at(
                pre.disk(),
                node_at(pre.disk(), o)->Some_0.kind->Internal_children[2 * si + 1 - ci] as int,
            )->Some_0.kind->Internal_children,
            (h - 2) as nat,
            child_lo(node_at(pre.disk(), o)->Some_0.kind->Internal_keys, lo, 2 * si + 1 - ci),
            child_hi(node_at(pre.disk(), o)->Some_0.kind->Internal_keys, hi, 2 * si + 1 - ci),
            fq,
        ),
        forall|i: int|
            0 <= i < node_at(
                pre.disk(),
                node_at(pre.disk(), o)->Some_0.kind->Internal_children[2 * si + 1 - ci] as int,
            )->Some_0.kind->Internal_children.len() ==> kept(
                pre,
                cur,
                node_at(pre.disk(), o)->Some_0.kind->Internal_children[si] as int,
                node_at(pre.disk(), o)->Some_0.kind->Internal_children[si + 1] as int,
                (h - 1) as nat,
                #[trigger] node_at(
                    pre.disk(),
                    node_at(pre.disk(), o)->Some_0.kind->Internal_children[2 * si + 1 - ci] as int,
                )->Some_0.kind->Internal_children[i] as int,
                (h - 2) as nat,
                fq,
            ),
        forall|k: Key| #[trigger]
            lookup_under(
                cur.disk(),
                node_at(
                    pre.disk(),
                    node_at(pre.disk(), o)->Some_0.kind->Internal_children[2 * si + 1 - ci] as int,
                )->Some_0.kind->Internal_keys,
                node_at(
                    pre.disk(),
                    node_at(pre.disk(), o)->Some_0.kind->Internal_children[2 * si + 1 - ci] as int,
                )->Some_0.kind->Internal_children,
                (h - 2) as nat,
                k,
            ) == lookup(
                pre.disk(),
                node_at(pre.disk(), o)->Some_0.kind->Internal_children[2 * si + 1 - ci] as int,
                (h - 1) as nat,
                k,
            ),
        forall|i: int, j: int|
            0 <= i < kids.len() && 0 <= j < node_at(
                pre.disk(),
                node_at(pre.disk(), o)->Some_0.kind->Internal_children[2 * si + 1 - ci] as int,
            )->Some_0.kind->Internal_children.len() ==> pages(
                cur.disk(),
                #[trigger] kids[i] as int,
                (h - 2) as nat,
            ).disjoint(
                pages(
                    cur.disk(),
                    #[trigger] node_at(
                        pre.disk(),
                        node_at(pre.disk(), o)->Some_0.kind->Internal_children[2 * si + 1
                            - ci] as int,
                    )->Some_0.kind->Internal_children[j] as int,
                    (h - 2) as nat,
                ),
            ),
{
    reveal(pair_found);
    reveal(internal_found);
    let up_keys = node_at(pre.disk(), o)->Some_0.kind->Internal_keys;
    let up_kids = node_at(pre.disk(), o)->Some_0.kind->Internal_children;
    let sx = 2 * si + 1 - ci;
    let s = up_kids[sx] as int;
    let hc = (h - 1) as nat;
    let hk = (h - 2) as nat;
    let slo = child_lo(up_keys, lo, sx);
    let shi = child_hi(up_keys, hi, sx);
    let skeys = node_at(pre.disk(), s)->Some_0.kind->Internal_keys;
    let skids = node_at(pre.disk(), s)->Some_0.kind->Internal_children;
    lemma_pair_found(pre, cur, o, h, lo, hi, si, ci, key, fq);
    lemma_subtree_internal(pre.disk(), o, h, lo, hi);
    assert(subtree(pre.disk(), s, hc, slo, shi));
    assert(all_live(pre, s, hc)) by {
        assert forall|p: int| #[trigger] in_subtree(pre.disk(), s, hc, p) implies live(pre, p) by {
            assert(in_subtree(pre.disk(), o, h, p));
        }
    }
    lemma_ready_old(pre, cur, s, hc, slo, shi, fq);
    lemma_ready_kept(pre, cur, o, h, lo, hi, si, sx, fq, skeys, skids, hk, slo, shi);
    lemma_subtree_internal(pre.disk(), s, hc, slo, shi);
    assert forall|i: int, j: int| 0 <= i < kids.len() && 0 <= j < skids.len() implies pages(
        cur.disk(),
        #[trigger] kids[i] as int,
        hk,
    ).disjoint(pages(cur.disk(), #[trigger] skids[j] as int, hk)) by {
        reveal(ready);
        let u = skids[j] as int;
        assert(pages(cur.disk(), u, hk) == pages(pre.disk(), u, hk));
        assert forall|p: int| #[trigger] in_subtree(cur.disk(), u, hk, p) implies live(pre, p)
            && in_subtree(pre.disk(), s, hc, p) by {
            assert(pages(cur.disk(), u, hk).contains(p));
            assert(pages(pre.disk(), u, hk).contains(p));
            assert(in_subtree(pre.disk(), u, hk, p));
            assert(in_subtree(pre.disk(), s, hc, p));
        }
        assert(settled(pre, cur, up_kids[ci] as int, hc, kids[i] as int, hk, fq));
        lemma_kept_apart(pre, cur, o, h, lo, hi, si, ci, fq, kids[i] as int, u, hk);
    }
}

/// The separators and children of a child that underflows and of its
/// neighbour, with the separator between the two put between them, are
/// joined for the two.
#[verifier::rlimit(60)]
pub proof fn lemma_internals_joined(
    pre: Pager,
    cur: Pager,
    o: int,
    h: nat,
    lo: Option<Key>,
    hi: Option<Key>,
    si: int,
    ci: int,
    key: Key,
    fq: Seq<usize>,
    keys: Seq<Key>,
    kids: Seq<usize>,
)
    requires
        pair_found(pre, cur, o, h, lo, hi, si, ci, key, fq),
        internal_found(pre, cur, o, h, lo, hi, ci, key, fq, keys, kids),
        node_at(
            pre.disk(),
            node_at(pre.disk(), o)->Some_0.kind->Internal_children[2 * si + 1 - ci] as int,
        )->Some_0.kind is Internal,
    ensures
        ci == si ==> joined_for(
            pre,
            cur,
            o,
            h,
            lo,
            hi,
            si,
            key,
            fq,
            keys + seq![node_at(pre.disk(), o)->Some_0.kind->Internal_keys[si]] + node_at(
                pre.disk(),
                node_at(pre.disk(), o)->Some_0.kind->Internal_children[si + 1] as int,
            )->Some_0.kind->Internal_keys,
            kids + node_at(
                pre.disk(),
                node_at(pre.disk(), o)->Some_0.kind->Internal_children[si + 1] as int,
            )->Some_0.kind->Internal_children,
        ),
        ci == si + 1 ==> joined_for(
            pre,
            cur,
            o,
            h,
            lo,
            hi,
            si,
            key,
            fq,
            node_at(
                pre.disk(),
                node_at(pre.disk(), o)->Some_0.kind->Internal_children[si] as int,
            )->Some_0.kind->Internal_keys + seq![
                node_at(pre.disk(), o)->Some_0.kind->Internal_keys[si],
            ] + keys,
            node_at(
                pre.disk(),
                node_at(pre.disk(), o)->Some_0.kind->Internal_children[si] as int,
            )->Some_0.kind->Internal_children + kids,
        ),
{
    reveal(pair_found);
    reveal(joined_for);
    let up_keys = node_at(pre.disk(), o)->Some_0.kind->Internal_keys;
    let up_kids = node_at(pre.disk(), o)->Some_0.kind->Internal_children;
    let sx = 2 * si + 1 - ci;
    let s = up_kids[sx] as int;
    let hc = (h - 1) as nat;
    let hk = (h - 2) as nat;
    let sep = up_keys[si];
    let skeys = node_at(pre.disk(), s)->Some_0.kind->Internal_keys;
    let skids = node_at(pre.disk(), s)->Some_0.kind->Internal_children;
    let llo = child_lo(up_keys, lo, si);
    let rhi = child_hi(up_keys, hi, si + 1);
    lemma_pair_found(pre, cur, o, h, lo, hi, si, ci, key, fq);
    lemma_subtree_internal(pre.disk(), o, h, lo, hi);
    lemma_sibling_side(pre, cur, o, h, lo, hi, si, ci, key, fq, keys, kids);
    assert(ready(
        pre,
        cur,
        up_kids[ci] as int,
        hc,
        keys,
        kids,
        hk,
        child_lo(up_keys, lo, ci),
        child_hi(up_keys, hi, ci),
        fq,
    ) && forall|k: Key| #[trigger]
        lookup_under(cur.disk(), keys, kids, hk, k) == without(
            pre.disk(),
            up_kids[ci] as int,
            hc,
            key,
            k,
        )) by {
        reveal(internal_found);
    }
    lemma_ready_kept(
        pre,
        cur,
        o,
        h,
        lo,
        hi,
        si,
        ci,
        fq,
        keys,
        kids,
        hk,
        child_lo(up_keys, lo, ci),
        child_hi(up_keys, hi, ci),
    );
    assert(above(llo, sep)) by {
        if si > 0 {
            assert(key_lt(up_keys[si - 1], up_keys[si]));
        }
    }
    assert(below(sep, rhi)) by {
        if si + 1 < up_keys.len() {
            assert(key_lt(up_keys[si], up_keys[si + 1]));
        }
    }
    let lk = if ci == si {
        keys
    } else {
        skeys
    };
    let lc = if ci == si {
        kids
    } else {
        skids
    };
    let rk = if ci == si {
        skeys
    } else {
        keys
    };
    let rc = if ci == si {
        skids
    } else {
        kids
    };
    assert forall|i: int, j: int| 0 <= i < lc.len() && 0 <= j < rc.len() implies pages(
        cur.disk(),
        #[trigger] lc[i] as int,
        hk,
    ).disjoint(pages(cur.disk(), #[trigger] rc[j] as int, hk)) by {
        if ci == si {
            assert(pages(cur.disk(), kids[i] as int, hk).disjoint(
                pages(cur.disk(), skids[j] as int, hk),
            ));
        } else {
            assert(pages(cur.disk(), kids[j] as int, hk).disjoint(
                pages(cur.disk(), skids[i] as int, hk),
            ));
        }
    }
    lemma_ready_concat(pre, cur, o, h, lk, lc, sep, rk, rc, hk, llo, rhi, fq);
    let jk = lk + seq![sep] + rk;
    let jc = lc + rc;
    assert forall|i: int| 0 <= i < jc.len() implies kept(
        pre,
        cur,
        up_kids[si] as int,
        up_kids[si + 1] as int,
        hc,
        #[trigger] jc[i] as int,
        hk,
        fq,
    ) by {
        if i < lc.len() {
            assert(jc[i] == lc[i]);
        } else {
            assert(jc[i] == rc[i - lc.len()]);
        }
    }
    assert forall|k: Key| #[trigger]
        lookup_under(cur.disk(), jk, jc, hk, k) == without(pre.disk(), o, h, key, k) || !(route(
            up_keys,
            k,
        ) == si || route(up_keys, k) == si + 1) by {
        assert(lookup(pre.disk(), o, h, k) == lookup(pre.disk(), o, h, k));
        if route(up_keys, k) == si {
            assert(key_lt(k, sep));
            assert(lookup_under(cur.disk(), jk, jc, hk, k) == lookup_under(cur.disk(), lk, lc, hk, k));
        } else if route(up_keys, k) == si + 1 {
            assert(!key_lt(k, sep));
            assert(lookup_under(cur.disk(), jk, jc, hk, k) == lookup_under(cur.disk(), rk, rc, hk, k));
        }
    }
}

/// One node written to a page that was not in use, over separators and
/// children that are joined for two neighbours, is there to take the place
/// of the two.
#[verifier::rlimit(60)]
pub proof fn lemma_internal_merged(
    pre: Pager,
    cur: Pager,
    post: Pager,
    o: int,
    h: nat,
    lo: Option<Key>,
    hi: Option<Key>,
    si: int,
    ci: int,
    key: Key,
    fq: Seq<usize>,
    keys: Seq<Key>,
    kids: Seq<usize>,
    n: Offset,
)
    requires
        pair_found(pre, cur, o, h, lo, hi, si, ci, key, fq),
        joined_for(pre, cur, o, h, lo, hi, si, key, fq, keys, kids),
        grew(cur, post),
        !live(cur, n.0 as int),
        live(post, n.0 as int),
        internal_at(post.disk(), n.0 as int, keys, kids),
    ensures
        merged_for(pre, post, o, h, lo, hi, si, key, fq, n),
{
    reveal(pair_found);
    reveal(merged_for);
    lemma_joined_parts(pre, cur, o, h, lo, hi, si, key, fq, keys, kids);
    let up_keys = node_at(pre.disk(), o)->Some_0.kind->Internal_keys;
    let up_kids = node_at(pre.disk(), o)->Some_0.kind->Internal_children;
    let hc = (h - 1) as nat;
    let llo = child_lo(up_keys, lo, si);
    let rhi = child_hi(up_keys, hi, si + 1);
    lemma_pair_found(pre, cur, o, h, lo, hi, si, ci, key, fq);
    assert(in_subtree(pre.disk(), o, h, o));
    lemma_assemble(pre, cur, post, o, h, n.0 as int, hc, keys, kids, llo, rhi, fq, fq);
    lemma_node_kept(
        pre,
        cur,
        post,
        up_kids[si] as int,
        up_kids[si + 1] as int,
        hc,
        n.0 as int,
        hc,
        keys,
        kids,
        llo,
        rhi,
        fq,
    );
    assert forall|k: Key| #[trigger]
        lookup(post.disk(), n.0 as int, hc, k) == without(pre.disk(), o, h, key, k) || !(route(
            up_keys,
            k,
        ) == si || route(up_keys, k) == si + 1) by {
        assert(lookup(post.disk(), n.0 as int, hc, k) == lookup_under(
            cur.disk(),
            keys,
            kids,
            (hc - 1) as nat,
            k,
        ));
    }
}

/// What `joined_for` says.
pub proof fn lemma_joined_parts(
    pre: Pager,
    cur: Pager,
    o: int,
    h: nat,
    lo: Option<Key>,
    hi: Option<Key>,
    si: int,
    key: Key,
    fq: Seq<usize>,
    keys: Seq<Key>,
    kids: Seq<usize>,
)
    requires
        joined_for(pre, cur, o, h, lo, hi, si, key, fq, keys, kids),
    ensures
        h >= 2,
        ready(pre, cur, o, h, keys, kids, (h - 2) as nat, child_lo(node_at(pre.disk(), o)->Some_0.kind->Internal_keys, lo, si), child_hi(node_at(pre.disk(), o)->Some_0.kind->Internal_keys, hi, si + 1), fq),
        separators_ok(keys, child_lo(node_at(pre.disk(), o)->Some_0.kind->Internal_keys, lo, si), child_hi(node_at(pre.disk(), o)->Some_0.kind->Internal_keys, hi, si + 1)),
        children_ok(cur.disk(), keys, kids, (h - 2) as nat, child_lo(node_at(pre.disk(), o)->Some_0.kind->Internal_keys, lo, si), child_hi(node_at(pre.disk(), o)->Some_0.kind->Internal_keys, hi, si + 1)),
        forall|i: int|
            0 <= i < kids.len() ==> kept(
                pre,
                cur,
                node_at(pre.disk(), o)->Some_0.kind->Internal_children[si] as int,
                node_at(pre.disk(), o)->Some_0.kind->Internal_children[si + 1] as int,
                (h - 1) as nat,
                #[trigger] kids[i] as int,
                (h - 2) as nat,
                fq,
            ),
        forall|k: Key| #[trigger]
            lookup_under(cur.disk(), keys, kids, (h - 2) as nat, k) == without(
                pre.disk(),
                o,
                h,
                key,
                k,
            ) || !(route(node_at(pre.disk(), o)->Some_0.kind->Internal_keys, k) == si || route(
                node_at(pre.disk(), o)->Some_0.kind->Internal_keys,
                k,
            ) == si + 1),
{
    reveal(joined_for);
    reveal(ready);
}

/// Two nodes written over the halves of separators and children that are
/// joined for two neighbours are sound within the bounds that the separator
/// at the cut gives them, share no page, and give each key what the children
/// of their half gave it.
#[verifier::rlimit(60)]
pub proof fn lemma_shared_sound(
    pre: Pager,
    cur: Pager,
    pa: Pager,
    post: Pager,
    o: int,
    h: nat,
    lo: Option<Key>,
    hi: Option<Key>,
    si: int,
    ci: int,
    key: Key,
    fq: Seq<usize>,
    keys: Seq<Key>,
    kids: Seq<usize>,
    cut: int,
    a: Offset,
    b: Offset,
)
    requires
        pair_found(pre, cur, o, h, lo, hi, si, ci, key, fq),
        joined_for(pre, cur, o, h, lo, hi, si, key, fq, keys, kids),
        grew(cur, pa),
        grew(pa, post),
        0 <= cut < keys.len(),
        !live(cur, a.0 as int),
        live(pa, a.0 as int),
        internal_at(pa.disk(), a.0 as int, keys.subrange(0, cut), kids.subrange(0, cut + 1)),
        !live(pa, b.0 as int),
        live(post, b.0 as int),
        internal_at(
            post.disk(),
            b.0 as int,
            keys.subrange(cut + 1, keys.len() as int),
            kids.subrange(cut + 1, kids.len() as int),
        ),
    ensures
        key_storable(keys[cut]),
        above(child_lo(node_at(pre.disk(), o)->Some_0.kind->Internal_keys, lo, si), keys[cut]),
        below(keys[cut], child_hi(node_at(pre.disk(), o)->Some_0.kind->Internal_keys, hi, si + 1)),
        subtree(post.disk(), a.0 as int, (h - 1) as nat, child_lo(node_at(pre.disk(), o)->Some_0.kind->Internal_keys, lo, si), Some(keys[cut])),
        subtree(post.disk(), b.0 as int, (h - 1) as nat, Some(keys[cut]), child_hi(node_at(pre.disk(), o)->Some_0.kind->Internal_keys, hi, si + 1)),
        pages(post.disk(), a.0 as int, (h - 1) as nat).disjoint(
            pages(post.disk(), b.0 as int, (h - 1) as nat),
        ),
        forall|k: Key| #[trigger]
            split_lookup(post.disk(), keys[cut], a.0 as int, b.0 as int, (h - 1) as nat, k)
                == lookup_under(cur.disk(), keys, kids, (h - 2) as nat, k),
{
    reveal(pair_found);
    let hc = (h - 1) as nat;
    let hk = (h - 2) as nat;
    let llo = child_lo(node_at(pre.disk(), o)->Some_0.kind->Internal_keys, lo, si);
    let rhi = child_hi(node_at(pre.disk(), o)->Some_0.kind->Internal_keys, hi, si + 1);
    let m = keys[cut];
    let lk = keys.subrange(0, cut);
    let lc = kids.subrange(0, cut + 1);
    let rk = keys.subrange(cut + 1, keys.len() as int);
    let rc = kids.subrange(cut + 1, kids.len() as int);
    lemma_joined_parts(pre, cur, o, h, lo, hi, si, key, fq, keys, kids);
    lemma_pair_found(pre, cur, o, h, lo, hi, si, ci, key, fq);
    assert(in_subtree(pre.disk(), o, h, o));
    assert(halves_written(pre, cur, pa, post, o, h, hc, llo, rhi, keys, kids, cut, a, b, fq, fq)) by {
        reveal(halves_written);
    }
    lemma_halves_replaced(pre, cur, pa, post, o, h, hc, llo, rhi, keys, kids, cut, a, b, fq, fq);
    lemma_halves_disjoint(pre, cur, pa, post, o, h, hc, llo, rhi, keys, kids, cut, a, b, fq, fq);
    lemma_ready_split(pre, cur, o, h, keys, kids, hk, llo, rhi, fq, cut);
    assert forall|k: Key| #[trigger]
        split_lookup(post.disk(), m, a.0 as int, b.0 as int, hc, k) == lookup_under(
            cur.disk(),
            keys,
            kids,
            hk,
            k,
        ) by {
        assert(lookup(post.disk(), a.0 as int, hc, k) == lookup_under(cur.disk(), lk, lc, hk, k));
        assert(lookup(post.disk(), b.0 as int, hc, k) == lookup_under(cur.disk(), rk, rc, hk, k));
        assert(lookup_under(cur.disk(), keys, kids, hk, k) == if key_lt(k, m) {
            lookup_under(cur.disk(), lk, lc, hk, k)
        } else {
            lookup_under(cur.disk(), rk, rc, hk, k)
        });
    }
}

/// Two nodes written over the halves of separators and children that are
/// joined for two neighbours are kept for the two.
#[verifier::rlimit(60)]
pub proof fn lemma_shared_kept(
    pre: Pager,
    cur: Pager,
    pa: Pager,
    post: Pager,
    o: int,
    h: nat,
    lo: Option<Key>,
    hi: Option<Key>,
    si: int,
    ci: int,
    key: Key,
    fq: Seq<usize>,
    keys: Seq<Key>,
    kids: Seq<usize>,
    cut: int,
    a: Offset,
    b: Offset,
)
    requires
        pair_found(pre, cur, o, h, lo, hi, si, ci, key, fq),
        joined_for(pre, cur, o, h, lo, hi, si, key, fq, keys, kids),
        grew(cur, pa),
        grew(pa, post),
        0 <= cut < keys.len(),
        !live(cur, a.0 as int),
        live(pa, a.0 as int),
        internal_at(pa.disk(), a.0 as int, keys.subrange(0, cut), kids.subrange(0, cut + 1)),
        !live(pa, b.0 as int),
        live(post, b.0 as int),
        internal_at(
            post.disk(),
            b.0 as int,
            keys.subrange(cut + 1, keys.len() as int),
            kids.subrange(cut + 1, kids.len() as int),
        ),
    ensures
        kept(pre, post, node_at(pre.disk(), o)->Some_0.kind->Internal_children[si] as int, node_at(pre.disk(), o)->Some_0.kind->Internal_children[si + 1] as int, (h - 1) as nat, a.0 as int, (h - 1) as nat, fq),
        kept(pre, post, node_at(pre.disk(), o)->Some_0.kind->Internal_children[si] as int, node_at(pre.disk(), o)->Some_0.kind->Internal_children[si + 1] as int, (h - 1) as nat, b.0 as int, (h - 1) as nat, fq),
{
    reveal(pair_found);
    let hc = (h - 1) as nat;
    let hk = (h - 2) as nat;
    let llo = child_lo(node_at(pre.disk(), o)->Some_0.kind->Internal_keys, lo, si);
    let rhi = child_hi(node_at(pre.disk(), o)->Some_0.kind->Internal_keys, hi, si + 1);
    let m = keys[cut];
    let lk = keys.subrange(0, cut);
    let lc = kids.subrange(0, cut + 1);
    let rk = keys.subrange(cut + 1, keys.len() as int);
    let rc = kids.subrange(cut + 1, kids.len() as int);
    let pa_ = node_at(pre.disk(), o)->Some_0.kind->Internal_children[si] as int;
    let pb_ = node_at(pre.disk(), o)->Some_0.kind->Internal_children[si + 1] as int;
    lemma_joined_parts(pre, cur, o, h, lo, hi, si, key, fq, keys, kids);
    lemma_pair_found(pre, cur, o, h, lo, hi, si, ci, key, fq);
    lemma_ready_split(pre, cur, o, h, keys, kids, hk, llo, rhi, fq, cut);
    lemma_ready_parts(pre, cur, o, h, lk, lc, hk, llo, Some(m), fq);
    assert(children_ok(cur.disk(), lk, lc, hk, llo, Some(m)) && children_ok(
        cur.disk(),
        rk,
        rc,
        hk,
        Some(m),
        rhi,
    )) by {
        reveal(ready);
    }
    lemma_grew_transitive(cur, pa, post);
    assert(internal_at(post.disk(), a.0 as int, lk, lc)) by {
        assert(page_at(post.disk(), a.0 as int) == page_at(pa.disk(), a.0 as int));
    }
    assert forall|i: int| 0 <= i < lc.len() implies kept(
        pre,
        cur,
        pa_,
        pb_,
        hc,
        #[trigger] lc[i] as int,
        hk,
        fq,
    ) by {
        assert(lc[i] == kids[i]);
    }
    assert forall|i: int| 0 <= i < rc.len() implies kept(
        pre,
        cur,
        pa_,
        pb_,
        hc,
        #[trigger] rc[i] as int,
        hk,
        fq,
    ) by {
        assert(rc[i] == kids[cut + 1 + i]);
    }
    lemma_node_kept(pre, cur, post, pa_, pb_, hc, a.0 as int, hc, lk, lc, llo, Some(m), fq);
    assert(!live(cur, b.0 as int)) by {
        if live(cur, b.0 as int) {
            assert(live(pa, b.0 as int));
        }
    }
    lemma_node_kept(pre, cur, post, pa_, pb_, hc, b.0 as int, hc, rk, rc, Some(m), rhi, fq);
}

/// Two nodes written to pages that were not in use, over the halves of
/// separators and children that are joined for two neighbours, are there to
/// take the place of the two.
#[verifier::rlimit(60)]
pub proof fn lemma_internals_shared(
    pre: Pager,
    cur: Pager,
    pa: Pager,
    post: Pager,
    o: int,
    h: nat,
    lo: Option<Key>,
    hi: Option<Key>,
    si: int,
    ci: int,
    key: Key,
    fq: Seq<usize>,
    keys: Seq<Key>,
    kids: Seq<usize>,
    cut: int,
    a: Offset,
    b: Offset,
)
    requires
        pair_found(pre, cur, o, h, lo, hi, si, ci, key, fq),
        joined_for(pre, cur, o, h, lo, hi, si, key, fq, keys, kids),
        grew(cur, pa),
        grew(pa, post),
        0 <= cut < keys.len(),
        !live(cur, a.0 as int),
        live(pa, a.0 as int),
        internal_at(pa.disk(), a.0 as int, keys.subrange(0, cut), kids.subrange(0, cut + 1)),
        !live(pa, b.0 as int),
        live(post, b.0 as int),
        internal_at(
            post.disk(),
            b.0 as int,
            keys.subrange(cut + 1, keys.len() as int),
            kids.subrange(cut + 1, kids.len() as int),
        ),
    ensures
        shared_for(pre, post, o, h, lo, hi, si, key, fq, keys[cut], a, b),
{
    reveal(pair_found);
    reveal(shared_for);
    let up_keys = node_at(pre.disk(), o)->Some_0.kind->Internal_keys;
    let hc = (h - 1) as nat;
    let hk = (h - 2) as nat;
    let m = keys[cut];
    lemma_joined_parts(pre, cur, o, h, lo, hi, si, key, fq, keys, kids);
    lemma_shared_sound(pre, cur, pa, post, o, h, lo, hi, si, ci, key, fq, keys, kids, cut, a, b);
    lemma_shared_kept(pre, cur, pa, post, o, h, lo, hi, si, ci, key, fq, keys, kids, cut, a, b);
    assert forall|k: Key| #[trigger]
        split_lookup(post.disk(), m, a.0 as int, b.0 as int, hc, k) == without(
            pre.disk(),
            o,
            h,
            key,
            k,
        ) || !(route(up_keys, k) == si || route(up_keys, k) == si + 1) by {
        assert(split_lookup(post.disk(), m, a.0 as int, b.0 as int, hc, k) == lookup_under(
            cur.disk(),
            keys,
            kids,
            hk,
            k,
        ));
    }
}

/// What `internal_found` says of the number of the separators.
pub proof fn lemma_internal_found_len(
    pre: Pager,
    cur: Pager,
    o: int,
    h: nat,
    lo: Option<Key>,
    hi: Option<Key>,
    ci: int,
    key: Key,
    fq: Seq<usize>,
    keys: Seq<Key>,
    kids: Seq<usize>,
)
    requires
        internal_found(pre, cur, o, h, lo, hi, ci, key, fq, keys, kids),
    ensures
        keys.len() <= PAGE_SIZE,
        kids.len() == keys.len() + 1,
        h >= 2,
{
    reveal(internal_found);
    reveal(ready);
}

/// What `joined_for` says of the separators: each can be stored, and
/// there is one child more than there are separators.
pub proof fn lemma_joined_storable(
    pre: Pager,
    cur: Pager,
    o: int,
    h: nat,
    lo: Option<Key>,
    hi: Option<Key>,
    si: int,
    key: Key,
    fq: Seq<usize>,
    keys: Seq<Key>,
    kids: Seq<usize>,
)
    requires
        joined_for(pre, cur, o, h, lo, hi, si, key, fq, keys, kids),
    ensures
        forall|i: int| 0 <= i < keys.len() ==> key_storable(#[trigger] keys[i]),
        kids.len() == keys.len() + 1,
{
    lemma_joined_parts(pre, cur, o, h, lo, hi, si, key, fq, keys, kids);
}

/// The separators and children of two neighbours, those of the first of the
/// two first, with `separator_key` between the separators.
#[verifier::rlimit(60)]
fn join_internals(
    separator_key: String,
    child_keys: Vec<String>,
    child_children: Vec<Offset>,
    sibling_keys: Vec<String>,
    sibling_children: Vec<Offset>,
    sibling_first: bool,
) -> (r: (Vec<String>, Vec<Offset>))
    ensures
        keys_view(r.0@) == if sibling_first {
            keys_view(sibling_keys@) + seq![key_of(separator_key@)] + keys_view(child_keys@)
        } else {
            keys_view(child_keys@) + seq![key_of(separator_key@)] + keys_view(sibling_keys@)
        },
        offsets_view(r.1@) == if sibling_first {
            offsets_view(sibling_children@) + offsets_view(child_children@)
        } else {
            offsets_view(child_children@) + offsets_view(sibling_children@)
        },
{
    let mut left_keys = child_keys;
    let mut left_children = child_children;
    let mut right_keys = sibling_keys;
    let mut right_children = sibling_children;
    if sibling_first {
        core::mem::swap(&mut left_keys, &mut right_keys);
        core::mem::swap(&mut left_children, &mut right_children);
    }
    let ghost lk = keys_view(left_keys@);
    let ghost lc = offsets_view(left_children@);
    let ghost rk = keys_view(right_keys@);
    let ghost rc = offsets_view(right_children@);
    left_keys.push(separator_key);
    left_keys.append(&mut right_keys);
    left_children.append(&mut right_children);
    assert(keys_view(left_keys@) =~= lk + seq![key_of(separator_key@)] + rk);
    assert(offsets_view(left_children@) =~= lc + rc);
    (left_keys, left_children)
}

/// Writes one node over separators and children that are joined for two
/// neighbours.
#[verifier::rlimit(40)]
fn merge_internal(
    pager: &mut Pager,
    keys: Vec<String>,
    children: Vec<Offset>,
    Ghost(pre): Ghost<Pager>,
    Ghost(o): Ghost<int>,
    Ghost(h): Ghost<nat>,
    Ghost(lo): Ghost<Option<Key>>,
    Ghost(hi): Ghost<Option<Key>>,
    Ghost(si): Ghost<int>,
    Ghost(ci): Ghost<int>,
    Ghost(key): Ghost<Key>,
    Ghost(fq): Ghost<Seq<usize>>,
) -> (r: Result<Offset, Error>)
    requires
        old(pager).wf(),
        pair_found(pre, *old(pager), o, h, lo, hi, si, ci, key, fq),
        joined_for(
            pre,
            *old(pager),
            o,
            h,
            lo,
            hi,
            si,
            key,
            fq,
            keys_view(keys@),
            offsets_view(children@),
        ),
    ensures
        r is Err ==> r->Err_0 is UnexpectedError,
        grew(pre, *final(pager)),
        grew(*old(pager), *final(pager)),
        final(pager).wf(),
        r is Err ==> *final(pager) == *old(pager),
        r is Ok ==> merged_for(pre, *final(pager), o, h, lo, hi, si, key, fq, r->Ok_0),
        old(pager).curser <= final(pager).curser <= old(pager).curser + PAGE_SIZE,
        internal_space(keys_view(keys@)) <= PAGE_SIZE && room(*old(pager), 1) ==> r is Ok,
        r is Ok ==> internal_space(keys_view(keys@)) <= PAGE_SIZE,
        r is Ok ==> node_at(final(pager).disk(), r->Ok_0.0 as int) is Some && node_at(
            final(pager).disk(),
            r->Ok_0.0 as int,
        )->Some_0.kind == (KindView::Internal {
            keys: keys_view(keys@),
            children: offsets_view(children@),
        }),
        r is Ok && fresh_snug(pre, *old(pager), 0) && internal_space(keys_view(keys@))
            >= UNDERFLOW_SPACE ==> fresh_snug(pre, *final(pager), 0),
        r is Ok && even_keys(keys_view(keys@), key.len()) && fresh_fit(
            pre,
            *old(pager),
            0,
            key.len(),
        ) && internal_space(keys_view(keys@)) >= UNDERFLOW_SPACE ==> fresh_fit(
            pre,
            *final(pager),
            0,
            key.len(),
        ),
{
    let ghost mid = *pager;
    let ghost jk = keys_view(keys@);
    let ghost jc = offsets_view(children@);
    proof {
        lemma_pair_found(pre, mid, o, h, lo, hi, si, ci, key, fq);
        lemma_joined_storable(pre, mid, o, h, lo, hi, si, key, fq, jk, jc);
    }
    let merged = Node::new(NodeKind::Internal { keys, children, occupied_space: 0 }, None);
    proof {
        assert(storable(merged@));
        assert(node_space(merged@.kind) == internal_space(jk));
        if internal_space(jk) <= PAGE_SIZE {
            lemma_encode_fits(merged@);
        }
    }
    let new_child = write_node(pager, &merged)?;
    proof {
        lemma_decode_space(page_at(pager.disk(), new_child.0 as int));
        lemma_grew_transitive(pre, mid, *pager);
        if fresh_snug(pre, mid, 0) && internal_space(jk) >= UNDERFLOW_SPACE {
            lemma_snug_more(pre, mid, *pager, new_child.0 as int, 0, 0);
        }
        if even_keys(jk, key.len()) && fresh_fit(pre, mid, 0, key.len()) && internal_space(jk)
            >= UNDERFLOW_SPACE {
            lemma_fresh_more(pre, mid, *pager, new_child.0 as int, 0, 0, key.len());
        }
        lemma_internal_merged(pre, mid, *pager, o, h, lo, hi, si, ci, key, fq, jk, jc, new_child);
    }
    Ok(new_child)
}

/// Cuts separators and children that are joined for two neighbours in two
/// by the bytes of the separators, and writes a node over each half. The
/// separator at the cut is given back with the offsets of the two: it parts
/// them. Fails with `ImpossibleSplit` where the cut would leave the first
/// half without a separator.
#[verifier::rlimit(40)]
fn share_internal(
    pager: &mut Pager,
    keys: Vec<String>,
    children: Vec<Offset>,
    Ghost(pre): Ghost<Pager>,
    Ghost(o): Ghost<int>,
    Ghost(h): Ghost<nat>,
    Ghost(lo): Ghost<Option<Key>>,
    Ghost(hi): Ghost<Option<Key>>,
    Ghost(si): Ghost<int>,
    Ghost(ci): Ghost<int>,
    Ghost(key): Ghost<Key>,
    Ghost(fq): Ghost<Seq<usize>>,
) -> (r: Result<(String, Offset, Offset), Error>)
    requires
        old(pager).wf(),
        keys@.len() <= 3 * PAGE_SIZE,
        INTERNAL_HEADER_SIZE + keys_space(keys_view(keys@)) + PTR_SIZE * (keys@.len() + 1) + 1
            >= PAGE_SIZE,
        pair_found(pre, *old(pager), o, h, lo, hi, si, ci, key, fq),
        joined_for(
            pre,
            *old(pager),
            o,
            h,
            lo,
            hi,
            si,
            key,
            fq,
            keys_view(keys@),
            offsets_view(children@),
        ),
    ensures
        r is Err ==> r->Err_0 is UnexpectedError,
        grew(pre, *final(pager)),
        grew(*old(pager), *final(pager)),
        final(pager).wf(),
        old(pager).curser <= final(pager).curser <= old(pager).curser + 2 * PAGE_SIZE,
        internal_space(
            keys_view(keys@).subrange(0, median_of(keys_view(keys@))),
        ) <= PAGE_SIZE && internal_space(
            keys_view(keys@).subrange(median_of(keys_view(keys@)) + 1, keys@.len() as int),
        ) <= PAGE_SIZE && room(*old(pager), 2) ==> r is Ok,
        r is Ok ==> internal_space(
            keys_view(keys@).subrange(0, median_of(keys_view(keys@))),
        ) <= PAGE_SIZE && internal_space(
            keys_view(keys@).subrange(median_of(keys_view(keys@)) + 1, keys@.len() as int),
        ) <= PAGE_SIZE && key_of(r->Ok_0.0@) == keys_view(keys@)[median_of(
            keys_view(keys@),
        )],
        r is Ok && even_keys(keys_view(keys@), key.len()) && fresh_fit(
            pre,
            *old(pager),
            0,
            key.len(),
        ) ==> fresh_fit(pre, *final(pager), 0, key.len()) && key_of(r->Ok_0.0@).len() == key.len(),
        r is Ok && fresh_snug(pre, *old(pager), 0) && internal_space(
            keys_view(keys@).subrange(0, median_of(keys_view(keys@))),
        ) >= UNDERFLOW_SPACE && internal_space(
            keys_view(keys@).subrange(median_of(keys_view(keys@)) + 1, keys@.len() as int),
        ) >= UNDERFLOW_SPACE ==> fresh_snug(pre, *final(pager), 0),
        r is Ok ==> node_at(final(pager).disk(), r->Ok_0.1.0 as int) is Some && node_at(
            final(pager).disk(),
            r->Ok_0.1.0 as int,
        )->Some_0.kind is Internal && node_at(
            final(pager).disk(),
            r->Ok_0.1.0 as int,
        )->Some_0.kind->Internal_children == offsets_view(children@).subrange(
            0,
            median_of(keys_view(keys@)) + 1,
        ) && node_at(final(pager).disk(), r->Ok_0.2.0 as int) is Some && node_at(
            final(pager).disk(),
            r->Ok_0.2.0 as int,
        )->Some_0.kind is Internal && node_at(
            final(pager).disk(),
            r->Ok_0.2.0 as int,
        )->Some_0.kind->Internal_children == offsets_view(children@).subrange(
            median_of(keys_view(keys@)) + 1,
            children@.len() as int,
        ),
        r is Ok ==> 1 <= median_of(keys_view(keys@)) < keys@.len() && children@.len() == keys@.len()
            + 1,
        r is Ok ==> shared_for(
            pre,
            *final(pager),
            o,
            h,
            lo,
            hi,
            si,
            key,
            fq,
            key_of(r->Ok_0.0@),
            r->Ok_0.1,
            r->Ok_0.2,
        ),
{
    let ghost mid = *pager;
    let ghost jk = keys_view(keys@);
    let ghost jc = offsets_view(children@);
    proof {
        lemma_pair_found(pre, mid, o, h, lo, hi, si, ci, key, fq);
        lemma_joined_storable(pre, mid, o, h, lo, hi, si, key, fq, jk, jc);
        assert forall|i: int| 0 <= i < jk.len() implies (#[trigger] jk[i]).len() <= KEY_MAX_SIZE by {
            assert(key_storable(jk[i]));
        }
        lemma_key_bytes_bound(jk, jk.len() as int);
        assert(keys_sized(jk)) by {
            assert forall|i: int| 0 <= i < jk.len() implies 1 <= (#[trigger] jk[i]).len()
                <= KEY_MAX_SIZE by {
                assert(key_storable(jk[i]));
            }
        }
        lemma_full_internal_median(jk);
    }
    let mut left_keys = keys;
    let mut left_children = children;
    let median_idx = find_median_key_idx(&left_keys);
    if median_idx == 0 {
        return Err(Error::ImpossibleSplit);
    }
    let mut rest_keys = left_keys.split_off(median_idx);
    let median_key = rest_keys.remove(0);
    let rest_children = left_children.split_off(median_idx + 1);
    let ghost cut = median_idx as int;
    proof {
        assert(keys_view(left_keys@) =~= jk.subrange(0, cut));
        assert(keys_view(rest_keys@) =~= jk.subrange(cut + 1, jk.len() as int));
        assert(offsets_view(left_children@) =~= jc.subrange(0, cut + 1));
        assert(offsets_view(rest_children@) =~= jc.subrange(cut + 1, jc.len() as int));
        assert(key_of(median_key@) == jk[cut]);
        assert forall|i: int| 0 <= i < cut implies key_storable(
            #[trigger] jk.subrange(0, cut)[i],
        ) by {
            assert(key_storable(jk[i]));
        }
        assert forall|i: int| 0 <= i < jk.len() - cut - 1 implies key_storable(
            #[trigger] jk.subrange(cut + 1, jk.len() as int)[i],
        ) by {
            assert(key_storable(jk[cut + 1 + i]));
        }
    }
    let first = Node::new(
        NodeKind::Internal { keys: left_keys, children: left_children, occupied_space: 0 },
        None,
    );
    let second = Node::new(
        NodeKind::Internal { keys: rest_keys, children: rest_children, occupied_space: 0 },
        None,
    );
    proof {
        assert(storable(first@));
        assert(storable(second@));
        lemma_median_one(jk, cut);
        assert(node_space(first@.kind) == internal_space(jk.subrange(0, cut)));
        assert(node_space(second@.kind) == internal_space(jk.subrange(cut + 1, jk.len() as int)));
        if internal_space(jk.subrange(0, cut)) <= PAGE_SIZE {
            lemma_encode_fits(first@);
        }
        if internal_space(jk.subrange(cut + 1, jk.len() as int)) <= PAGE_SIZE {
            lemma_encode_fits(second@);
        }
    }
    let a = write_node(pager, &first)?;
    let ghost pa = *pager;
    let written = write_node(pager, &second);
    proof {
        lemma_grew_transitive(pre, mid, pa);
        lemma_grew_transitive(pre, pa, *pager);
        lemma_grew_transitive(mid, pa, *pager);
    }
    let b = written?;
    proof {
        lemma_decode_space(page_at(pa.disk(), a.0 as int));
        lemma_decode_space(page_at(pager.disk(), b.0 as int));
        if fresh_snug(pre, mid, 0) && internal_space(jk.subrange(0, cut)) >= UNDERFLOW_SPACE
            && internal_space(jk.subrange(cut + 1, jk.len() as int)) >= UNDERFLOW_SPACE {
            lemma_snug_more(pre, mid, pa, a.0 as int, 0, 0);
            lemma_snug_more(pre, pa, *pager, b.0 as int, 0, 0);
        }
        if even_keys(jk, key.len()) && fresh_fit(pre, mid, 0, key.len()) {
            lemma_even_internal_halves(jk, cut, key.len());
            lemma_even_part(jk, 0, cut, key.len());
            lemma_even_part(jk, cut + 1, jk.len() as int, key.len());
            lemma_fresh_more(pre, mid, pa, a.0 as int, 0, 0, key.len());
            lemma_fresh_more(pre, pa, *pager, b.0 as int, 0, 0, key.len());
        }
        lemma_internals_shared(pre, mid, pa, *pager, o, h, lo, hi, si, ci, key, fq, jk, jc, cut, a, b);
    }
    Ok((median_key, a, b))
}

/// Two neighbouring internal nodes, one of which was handed up with
/// children that cover its tree, are covered by the nodes written over the
/// children of both.
pub proof fn lemma_joined_pair(
    pre: Pager,
    cur: Pager,
    post: Pager,
    o: int,
    h: nat,
    lo: Option<Key>,
    hi: Option<Key>,
    si: int,
    ci: int,
    key: Key,
    fq: Seq<usize>,
    jk: Seq<Key>,
    jc: Seq<usize>,
    cc: Seq<usize>,
    sc: Seq<usize>,
    news: Seq<usize>,
)
    requires
        pair_found(pre, cur, o, h, lo, hi, si, ci, key, fq),
        joined_for(pre, cur, o, h, lo, hi, si, key, fq, jk, jc),
        grew(cur, post),
        node_at(
            pre.disk(),
            node_at(pre.disk(), o)->Some_0.kind->Internal_children[2 * si + 1 - ci] as int,
        )->Some_0.kind is Internal,
        sc == node_at(
            pre.disk(),
            node_at(pre.disk(), o)->Some_0.kind->Internal_children[2 * si + 1 - ci] as int,
        )->Some_0.kind->Internal_children,
        jc == if ci == si {
            cc + sc
        } else {
            sc + cc
        },
        covered(
            pre.disk(),
            node_at(pre.disk(), o)->Some_0.kind->Internal_children[ci] as int,
            (h - 1) as nat,
            cur.disk(),
            cc,
            (h - 2) as nat,
            fq,
        ),
        forall|p: int| #[trigger]
            in_any(post.disk(), jc, (h - 2) as nat, p) ==> in_any(
                post.disk(),
                news,
                (h - 1) as nat,
                p,
            ),
    ensures
        pair_covered(
            pre.disk(),
            node_at(pre.disk(), o)->Some_0.kind->Internal_children[si] as int,
            node_at(pre.disk(), o)->Some_0.kind->Internal_children[si + 1] as int,
            (h - 1) as nat,
            post.disk(),
            news,
            (h - 1) as nat,
            fq,
        ),
{
    reveal(pair_found);
    lemma_joined_ready(pre, cur, o, h, lo, hi, si, key, fq, jk, jc);
    lemma_pair_joined(
        pre,
        cur,
        post,
        o,
        h,
        lo,
        hi,
        si,
        ci,
        jk,
        jc,
        child_lo(node_at(pre.disk(), o)->Some_0.kind->Internal_keys, lo, si),
        child_hi(node_at(pre.disk(), o)->Some_0.kind->Internal_keys, hi, si + 1),
        cc,
        news,
        fq,
    );
}

/// What `joined_for` says of the children: they are ready.
pub proof fn lemma_joined_ready(
    pre: Pager,
    cur: Pager,
    o: int,
    h: nat,
    lo: Option<Key>,
    hi: Option<Key>,
    si: int,
    key: Key,
    fq: Seq<usize>,
    keys: Seq<Key>,
    kids: Seq<usize>,
)
    requires
        joined_for(pre, cur, o, h, lo, hi, si, key, fq, keys, kids),
    ensures
        h >= 2,
        ready(
            pre,
            cur,
            o,
            h,
            keys,
            kids,
            (h - 2) as nat,
            child_lo(node_at(pre.disk(), o)->Some_0.kind->Internal_keys, lo, si),
            child_hi(node_at(pre.disk(), o)->Some_0.kind->Internal_keys, hi, si + 1),
            fq,
        ),
{
    reveal(joined_for);
}

/// Replaces an internal node that underflows and the node next to it, below
/// the node stored at `node_offset`: by one node with the separators and
/// children of both, and the separator between the two, where that fits a
/// page, else by two nodes between which these are shared out anew; and
/// rewrites the node above for it.
#[verifier::rlimit(100)]
fn rebalance_internals(
    pager: &mut Pager,
    fq: &mut FreeQueue,
    keys: Vec<String>,
    children: Vec<Offset>,
    occupied_space: usize,
    node_offset: &Offset,
    child_idx: usize,
    sibling_idx: usize,
    child_keys: Vec<String>,
    child_children: Vec<Offset>,
    child_occupied: usize,
    sibling_keys: Vec<String>,
    sibling_children: Vec<Offset>,
    sibling_occupied: usize,
    removed_value: Option<u64>,
    Ghost(pre): Ghost<Pager>,
    Ghost(h): Ghost<nat>,
    Ghost(lo): Ghost<Option<Key>>,
    Ghost(hi): Ghost<Option<Key>>,
    Ghost(key): Ghost<Key>,
) -> (r: Result<(Option<u64>, DeleteCOWStatus), Error>)
    requires
        old(pager).wf(),
        subtree(pre.disk(), node_offset.0 as int, h, lo, hi),
        all_live(pre, node_offset.0 as int, h),
        node_at(pre.disk(), node_offset.0 as int)->Some_0.kind == (KindView::Internal {
            keys: keys_view(keys@),
            children: offsets_view(children@),
        }),
        occupied_space == space_at(pre.disk(), node_offset.0 as int),
        child_idx < children@.len(),
        sibling_idx < children@.len(),
        sibling_idx == child_idx + 1 || child_idx == sibling_idx + 1,
        child_idx == route(keys_view(keys@), key),
        from_tree(pre.disk(), children@[child_idx as int].0 as int, (h - 1) as nat, old(fq)@),
        child_occupied < UNDERFLOW_SPACE,
        sibling_occupied <= PAGE_SIZE,
        child_occupied == INTERNAL_HEADER_SIZE + keys_space(keys_view(child_keys@)) + PTR_SIZE
            * child_children@.len() + 1,
        sibling_occupied == INTERNAL_HEADER_SIZE + keys_space(keys_view(sibling_keys@)) + PTR_SIZE
            * sibling_children@.len() + 1,
        pair_found(
            pre,
            *old(pager),
            node_offset.0 as int,
            h,
            lo,
            hi,
            lower(child_idx, sibling_idx),
            child_idx as int,
            key,
            old(fq)@,
        ),
        internal_found(
            pre,
            *old(pager),
            node_offset.0 as int,
            h,
            lo,
            hi,
            child_idx as int,
            key,
            old(fq)@,
            keys_view(child_keys@),
            offsets_view(child_children@),
        ),
        node_at(pre.disk(), children@[sibling_idx as int].0 as int)->Some_0.kind == (
        KindView::Internal {
            keys: keys_view(sibling_keys@),
            children: offsets_view(sibling_children@),
        }),
        sibling_keys@.len() <= PAGE_SIZE,
    ensures
        r is Err ==> r->Err_0 is UnexpectedError,
        r is Ok ==> written_anew(pre, final(fq)@, node_offset.0, r->Ok_0.1),
        r is Ok && pre.wf() && covered(
            pre.disk(),
            children@[child_idx as int].0 as int,
            (h - 1) as nat,
            old(pager).disk(),
            offsets_view(child_children@),
            (h - 2) as nat,
            old(fq)@,
        ) ==> reclaimed_del(
            pre.disk(),
            node_offset.0 as int,
            h,
            final(pager).disk(),
            final(fq)@,
            r->Ok_0.1,
        ),
        r is Ok && fresh_snug(pre, *old(pager), 0) && sibling_occupied >= UNDERFLOW_SPACE
            && halves_snug(
            keys_view(keys@),
            lower(child_idx, sibling_idx),
            if child_idx < sibling_idx {
                keys_view(child_keys@)
            } else {
                keys_view(sibling_keys@)
            },
            if child_idx < sibling_idx {
                keys_view(sibling_keys@)
            } else {
                keys_view(child_keys@)
            },
            false,
        ) ==> fresh_snug(pre, *final(pager), spared(r->Ok_0.1)),
        r is Ok && r->Ok_0.1 is NewOffset ==> space_at(
            final(pager).disk(),
            r->Ok_0.1->NewOffset_0.0 as int,
        ) == up_space(
            keys_view(keys@),
            lower(child_idx, sibling_idx),
            if child_idx < sibling_idx {
                keys_view(child_keys@)
            } else {
                keys_view(sibling_keys@)
            },
            if child_idx < sibling_idx {
                keys_view(sibling_keys@)
            } else {
                keys_view(child_keys@)
            },
            false,
        ),
        r is Ok ==> final(fq)@.contains(children@[child_idx as int].0) && final(fq)@.contains(
            children@[sibling_idx as int].0,
        ),
        grew(pre, *final(pager)),
        from_tree(pre.disk(), node_offset.0 as int, h, final(fq)@),
        underflow_told(r),
        old(pager).curser <= final(pager).curser <= old(pager).curser + 3 * PAGE_SIZE,
        r is Ok && even_at(pre.disk(), node_offset.0 as int, key.len()) && fresh_fit(
            pre,
            *old(pager),
            0,
            key.len(),
        ) && even_keys(keys_view(child_keys@), key.len()) && even_keys(
            keys_view(sibling_keys@),
            key.len(),
        ) && sibling_occupied >= UNDERFLOW_SPACE ==> stays_full(
            pre,
            *final(pager),
            node_offset.0 as int,
            key.len(),
            r->Ok_0.1,
        ),
        !(internals_plan(
            keys_view(keys@),
            lower(child_idx, sibling_idx),
            if child_idx < sibling_idx {
                keys_view(child_keys@)
            } else {
                keys_view(sibling_keys@)
            },
            if child_idx < sibling_idx {
                keys_view(sibling_keys@)
            } else {
                keys_view(child_keys@)
            },
        ) is Stuck) && room(*old(pager), 3) ==> r is Ok,
        r is Ok ==> told(r->Ok_0.1, internals_plan(
            keys_view(keys@),
            lower(child_idx, sibling_idx),
            if child_idx < sibling_idx {
                keys_view(child_keys@)
            } else {
                keys_view(sibling_keys@)
            },
            if child_idx < sibling_idx {
                keys_view(sibling_keys@)
            } else {
                keys_view(child_keys@)
            },
        )),
        r is Ok ==> r->Ok_0.0 == removed_value && deleted(
            pre,
            *final(pager),
            node_offset.0 as int,
            h,
            lo,
            hi,
            key,
            final(fq)@,
            r->Ok_0.1,
        ),
{
    let ghost mid = *pager;
    let ghost o = node_offset.0 as int;
    let ghost si = lower(child_idx, sibling_idx);
    let ghost ci = child_idx as int;
    let ghost old_fq = fq@;
    let ghost ck = keys_view(child_keys@);
    let ghost cc = offsets_view(child_children@);
    let separator = if child_idx < sibling_idx {
        child_idx
    } else {
        sibling_idx
    };
    proof {
        lemma_pair_found(pre, mid, o, h, lo, hi, si, ci, key, old_fq);
        lemma_from_tree_up(pre.disk(), o, h, lo, hi, ci, old_fq);
        lemma_internal_found_len(pre, mid, o, h, lo, hi, ci, key, old_fq, ck, cc);
        assert(offsets_view(children@)[sibling_idx as int] == children@[sibling_idx as int].0);
        assert(keys_view(keys@)[si] == key_of(keys@[si]@));
        lemma_internals_joined(pre, mid, o, h, lo, hi, si, ci, key, old_fq, ck, cc);
    }
    let separator_key = keys[separator].clone();
    let (joined_keys, joined_children) = join_internals(
        separator_key,
        child_keys,
        child_children,
        sibling_keys,
        sibling_children,
        sibling_idx < child_idx,
    );
    proof {
        assert(keys_view(joined_keys@).len() == joined_keys@.len());
        assert(keys_view(sibling_keys@).len() == sibling_keys@.len());
        assert(ck.len() == child_keys@.len());
        lemma_joined_space(keys_view(sibling_keys@), key_of(separator_key@), ck);
        lemma_joined_space(ck, key_of(separator_key@), keys_view(sibling_keys@));
        lemma_keys_space_nonneg(ck);
        if even_at(pre.disk(), o, key.len()) && even_keys(ck, key.len()) && even_keys(
            keys_view(sibling_keys@),
            key.len(),
        ) {
            let sep = seq![key_of(separator_key@)];
            assert(even_keys(sep, key.len())) by {
                assert(key_of(separator_key@) == keys_view(keys@)[si]);
            }
            lemma_even_concat(keys_view(sibling_keys@), sep, key.len());
            lemma_even_concat(keys_view(sibling_keys@) + sep, ck, key.len());
            lemma_even_concat(ck, sep, key.len());
            lemma_even_concat(ck + sep, keys_view(sibling_keys@), key.len());
        }
        assert(offsets_view(sibling_children@).len() == sibling_children@.len());
        assert(cc.len() == child_children@.len());
        assert(sibling_children@.len() == sibling_keys@.len() + 1) by {
            assert(subtree(
                pre.disk(),
                offsets_view(children@)[sibling_idx as int] as int,
                (h - 1) as nat,
                child_lo(keys_view(keys@), lo, sibling_idx as int),
                child_hi(keys_view(keys@), hi, sibling_idx as int),
            ));
        }
    }
    let ghost jk = keys_view(joined_keys@);
    let ghost jc = offsets_view(joined_children@);
    let ghost sc = node_at(
        pre.disk(),
        offsets_view(children@)[sibling_idx as int] as int,
    )->Some_0.kind->Internal_children;
    let ghost told_covered = pre.wf() && covered(
        pre.disk(),
        offsets_view(children@)[ci] as int,
        (h - 1) as nat,
        mid.disk(),
        cc,
        (h - 2) as nat,
        old_fq,
    );
    if sibling_occupied + child_occupied < PAGE_SIZE + INTERNAL_HEADER_SIZE {
        let new_child = merge_internal(
            pager,
            joined_keys,
            joined_children,
            Ghost(pre),
            Ghost(o),
            Ghost(h),
            Ghost(lo),
            Ghost(hi),
            Ghost(si),
            Ghost(ci),
            Ghost(key),
            Ghost(old_fq),
        )?;
        proof {
            if told_covered {
                lemma_node_holds(pager.disk(), new_child.0, jc, (h - 2) as nat);
                lemma_joined_pair(
                    pre,
                    mid,
                    *pager,
                    o,
                    h,
                    lo,
                    hi,
                    si,
                    ci,
                    key,
                    old_fq,
                    jk,
                    jc,
                    cc,
                    sc,
                    seq![new_child.0],
                );
            }
        }
        finish_merge(
            pager,
            fq,
            keys,
            children,
            occupied_space,
            node_offset,
            child_idx,
            sibling_idx,
            new_child,
            removed_value,
            Ghost(pre),
            Ghost(h),
            Ghost(lo),
            Ghost(hi),
            Ghost(key),
        )
    } else {
        let (median_key, a, b) = share_internal(
            pager,
            joined_keys,
            joined_children,
            Ghost(pre),
            Ghost(o),
            Ghost(h),
            Ghost(lo),
            Ghost(hi),
            Ghost(si),
            Ghost(ci),
            Ghost(key),
            Ghost(old_fq),
        )?;
        proof {
            if told_covered {
                lemma_nodes_hold(pager.disk(), a.0, b.0, jc, median_of(jk) + 1, (h - 2) as nat);
                lemma_joined_pair(
                    pre,
                    mid,
                    *pager,
                    o,
                    h,
                    lo,
                    hi,
                    si,
                    ci,
                    key,
                    old_fq,
                    jk,
                    jc,
                    cc,
                    sc,
                    seq![a.0, b.0],
                );
            }
        }
        finish_redistribute(
            pager,
            fq,
            keys,
            children,
            node_offset,
            child_idx,
            sibling_idx,
            median_key,
            a,
            b,
            removed_value,
            Ghost(pre),
            Ghost(h),
            Ghost(lo),
            Ghost(hi),
            Ghost(key),
        )
    }
}

/// What `deleted` says of a leaf that underflows.
pub proof fn lemma_deleted_leaf(
    pre: Pager,
    post: Pager,
    o: int,
    h: nat,
    lo: Option<Key>,
    hi: Option<Key>,
    key: Key,
    fq: Seq<usize>,
    node: Node,
)
    requires
        deleted(pre, post, o, h, lo, hi, key, fq, DeleteCOWStatus::DidUnderflow(node)),
        node.node_kind is Leaf,
    ensures
        h == 0,
        leaf_ok(node@.kind->Leaf_pairs, lo, hi),
        node@.kind->Leaf_pairs.len() <= PAGE_SIZE,
        storable(node@),
        !fq.contains(o as usize),
        forall|k: Key| #[trigger]
            pairs_get(node@.kind->Leaf_pairs, k) == without(pre.disk(), o, h, key, k),
{
    reveal(deleted);
}

/// What `deleted` says of an internal node that underflows.
pub proof fn lemma_deleted_internal(
    pre: Pager,
    post: Pager,
    o: int,
    h: nat,
    lo: Option<Key>,
    hi: Option<Key>,
    key: Key,
    fq: Seq<usize>,
    node: Node,
)
    requires
        deleted(pre, post, o, h, lo, hi, key, fq, DeleteCOWStatus::DidUnderflow(node)),
        node.node_kind is Internal,
    ensures
        h > 0,
        ready(
            pre,
            post,
            o,
            h,
            node@.kind->Internal_keys,
            node@.kind->Internal_children,
            (h - 1) as nat,
            lo,
            hi,
            fq,
        ),
        node@.kind->Internal_keys.len() <= PAGE_SIZE,
        node@.kind->Internal_children.len() == node@.kind->Internal_keys.len() + 1,
        storable(node@),
        !fq.contains(o as usize),
        forall|k: Key| #[trigger]
            lookup_under(
                post.disk(),
                node@.kind->Internal_keys,
                node@.kind->Internal_children,
                (h - 1) as nat,
                k,
            ) == without(pre.disk(), o, h, key, k),
{
    reveal(deleted);
    lemma_ready_parts(
        pre,
        post,
        o,
        h,
        node@.kind->Internal_keys,
        node@.kind->Internal_children,
        (h - 1) as nat,
        lo,
        hi,
        fq,
    );
}

/// What makes `pair_found` and `leaves_found` hold where a leaf underflows
/// below the sound node stored at `o` and its neighbour is read.
#[verifier::rlimit(60)]
pub proof fn lemma_leaves_found(
    pre: Pager,
    cur: Pager,
    o: int,
    h: nat,
    lo: Option<Key>,
    hi: Option<Key>,
    si: int,
    ci: int,
    key: Key,
    fq: Seq<usize>,
    under: Node,
)
    requires
        cur.wf(),
        subtree(pre.disk(), o, h, lo, hi),
        node_at(pre.disk(), o)->Some_0.kind is Internal,
        all_live(pre, o, h),
        grew(pre, cur),
        0 <= si,
        si + 1 < node_at(pre.disk(), o)->Some_0.kind->Internal_children.len(),
        ci == si || ci == si + 1,
        ci == route(node_at(pre.disk(), o)->Some_0.kind->Internal_keys, key),
        from_tree(
            pre.disk(),
            node_at(pre.disk(), o)->Some_0.kind->Internal_children[ci] as int,
            (h - 1) as nat,
            fq,
        ),
        deleted(
            pre,
            cur,
            node_at(pre.disk(), o)->Some_0.kind->Internal_children[ci] as int,
            (h - 1) as nat,
            child_lo(node_at(pre.disk(), o)->Some_0.kind->Internal_keys, lo, ci),
            child_hi(node_at(pre.disk(), o)->Some_0.kind->Internal_keys, hi, ci),
            key,
            fq,
            DeleteCOWStatus::DidUnderflow(under),
        ),
        under.node_kind is Leaf,
    ensures
        pair_found(pre, cur, o, h, lo, hi, si, ci, key, fq),
        h == 1,
        node_at(
            cur.disk(),
            node_at(pre.disk(), o)->Some_0.kind->Internal_children[2 * si + 1 - ci] as int,
        ) == node_at(
            pre.disk(),
            node_at(pre.disk(), o)->Some_0.kind->Internal_children[2 * si + 1 - ci] as int,
        ),
        node_at(
            pre.disk(),
            node_at(pre.disk(), o)->Some_0.kind->Internal_children[2 * si + 1 - ci] as int,
        ) is Some,
        node_at(
            pre.disk(),
            node_at(pre.disk(), o)->Some_0.kind->Internal_children[2 * si + 1 - ci] as int,
        )->Some_0.kind is Leaf,
        space_at(
            cur.disk(),
            node_at(pre.disk(), o)->Some_0.kind->Internal_children[2 * si + 1 - ci] as int,
        ) <= PAGE_SIZE,
        leaves_found(
            pre,
            o,
            h,
            lo,
            hi,
            si,
            ci,
            key,
            if ci == si {
                under@.kind->Leaf_pairs
            } else {
                node_at(
                    pre.disk(),
                    node_at(pre.disk(), o)->Some_0.kind->Internal_children[si] as int,
                )->Some_0.kind->Leaf_pairs
            },
            if ci == si {
                node_at(
                    pre.disk(),
                    node_at(pre.disk(), o)->Some_0.kind->Internal_children[si + 1] as int,
                )->Some_0.kind->Leaf_pairs
            } else {
                under@.kind->Leaf_pairs
            },
        ),
{
    reveal(pair_found);
    let keys = node_at(pre.disk(), o)->Some_0.kind->Internal_keys;
    let children = node_at(pre.disk(), o)->Some_0.kind->Internal_children;
    let sx = 2 * si + 1 - ci;
    let s = children[sx] as int;
    let c = children[ci] as int;
    lemma_subtree_internal(pre.disk(), o, h, lo, hi);
    lemma_deleted_leaf(
        pre,
        cur,
        c,
        (h - 1) as nat,
        child_lo(keys, lo, ci),
        child_hi(keys, hi, ci),
        key,
        fq,
        under,
    );
    assert(live(pre, c)) by {
        assert(in_subtree(pre.disk(), c, 0, c));
        assert(in_subtree(pre.disk(), o, h, c));
    }
    assert(c as usize as int == c);
    assert(subtree(pre.disk(), s, 0, child_lo(keys, lo, sx), child_hi(keys, hi, sx)));
    lemma_subtree_leaf(pre.disk(), s, child_lo(keys, lo, sx), child_hi(keys, hi, sx));
    assert(in_subtree(pre.disk(), s, 0, s));
    assert(in_subtree(pre.disk(), o, h, s));
    assert(live(pre, s));
    assert(page_at(cur.disk(), s) == page_at(pre.disk(), s));
}

/// What makes `pair_found` and `internal_found` hold where an internal node
/// underflows below the sound node stored at `o` and its neighbour is read.
#[verifier::rlimit(60)]
pub proof fn lemma_internals_found(
    pre: Pager,
    cur: Pager,
    o: int,
    h: nat,
    lo: Option<Key>,
    hi: Option<Key>,
    si: int,
    ci: int,
    key: Key,
    fq: Seq<usize>,
    under: Node,
)
    requires
        cur.wf(),
        subtree(pre.disk(), o, h, lo, hi),
        node_at(pre.disk(), o)->Some_0.kind is Internal,
        all_live(pre, o, h),
        grew(pre, cur),
        0 <= si,
        si + 1 < node_at(pre.disk(), o)->Some_0.kind->Internal_children.len(),
        ci == si || ci == si + 1,
        ci == route(node_at(pre.disk(), o)->Some_0.kind->Internal_keys, key),
        from_tree(
            pre.disk(),
            node_at(pre.disk(), o)->Some_0.kind->Internal_children[ci] as int,
            (h - 1) as nat,
            fq,
        ),
        deleted(
            pre,
            cur,
            node_at(pre.disk(), o)->Some_0.kind->Internal_children[ci] as int,
            (h - 1) as nat,
            child_lo(node_at(pre.disk(), o)->Some_0.kind->Internal_keys, lo, ci),
            child_hi(node_at(pre.disk(), o)->Some_0.kind->Internal_keys, hi, ci),
            key,
            fq,
            DeleteCOWStatus::DidUnderflow(under),
        ),
        under.node_kind is Internal,
    ensures
        pair_found(pre, cur, o, h, lo, hi, si, ci, key, fq),
        internal_found(
            pre,
            cur,
            o,
            h,
            lo,
            hi,
            ci,
            key,
            fq,
            under@.kind->Internal_keys,
            under@.kind->Internal_children,
        ),
        node_at(
            cur.disk(),
            node_at(pre.disk(), o)->Some_0.kind->Internal_children[2 * si + 1 - ci] as int,
        ) == node_at(
            pre.disk(),
            node_at(pre.disk(), o)->Some_0.kind->Internal_children[2 * si + 1 - ci] as int,
        ),
        node_at(
            pre.disk(),
            node_at(pre.disk(), o)->Some_0.kind->Internal_children[2 * si + 1 - ci] as int,
        ) is Some,
        node_at(
            pre.disk(),
            node_at(pre.disk(), o)->Some_0.kind->Internal_children[2 * si + 1 - ci] as int,
        )->Some_0.kind is Internal,
        node_at(
            pre.disk(),
            node_at(pre.disk(), o)->Some_0.kind->Internal_children[2 * si + 1 - ci] as int,
        )->Some_0.kind->Internal_keys.len() <= PAGE_SIZE,
        space_at(
            cur.disk(),
            node_at(pre.disk(), o)->Some_0.kind->Internal_children[2 * si + 1 - ci] as int,
        ) <= PAGE_SIZE,
{
    reveal(pair_found);
    reveal(internal_found);
    let keys = node_at(pre.disk(), o)->Some_0.kind->Internal_keys;
    let children = node_at(pre.disk(), o)->Some_0.kind->Internal_children;
    let sx = 2 * si + 1 - ci;
    let s = children[sx] as int;
    let c = children[ci] as int;
    let hc = (h - 1) as nat;
    lemma_subtree_internal(pre.disk(), o, h, lo, hi);
    lemma_deleted_internal(
        pre,
        cur,
        c,
        hc,
        child_lo(keys, lo, ci),
        child_hi(keys, hi, ci),
        key,
        fq,
        under,
    );
    assert(live(pre, c)) by {
        assert(in_subtree(pre.disk(), c, hc, c));
        assert(in_subtree(pre.disk(), o, h, c));
    }
    assert(c as usize as int == c);
    assert(subtree(pre.disk(), s, hc, child_lo(keys, lo, sx), child_hi(keys, hi, sx)));
    lemma_subtree_internal(pre.disk(), s, hc, child_lo(keys, lo, sx), child_hi(keys, hi, sx));
    assert(in_subtree(pre.disk(), s, hc, s));
    assert(in_subtree(pre.disk(), o, h, s));
    assert(live(pre, s));
    assert(page_at(cur.disk(), s) == page_at(pre.disk(), s));
}

/// Rewrites an internal node after a deletion below it left the child
/// `child_idx` with less than the space that a node must occupy: the child
/// and a neighbour, the one before it or, for the first child, the one after
/// it, are merged or share their entries out anew.
#[verifier::rlimit(100)]
fn delete_underflow(
    pager: &mut Pager,
    fq: &mut FreeQueue,
    keys: Vec<String>,
    children: Vec<Offset>,
    occupied_space: usize,
    node_offset: &Offset,
    child_idx: usize,
    under: Node,
    removed_value: Option<u64>,
    Ghost(pre): Ghost<Pager>,
    Ghost(h): Ghost<nat>,
    Ghost(lo): Ghost<Option<Key>>,
    Ghost(hi): Ghost<Option<Key>>,
    Ghost(key): Ghost<Key>,
) -> (r: Result<(Option<u64>, DeleteCOWStatus), Error>)
    requires
        old(pager).wf(),
        grew(pre, *old(pager)),
        subtree(pre.disk(), node_offset.0 as int, h, lo, hi),
        all_live(pre, node_offset.0 as int, h),
        node_at(pre.disk(), node_offset.0 as int)->Some_0.kind == (KindView::Internal {
            keys: keys_view(keys@),
            children: offsets_view(children@),
        }),
        occupied_space == space_at(pre.disk(), node_offset.0 as int),
        child_idx < children@.len(),
        child_idx == route(keys_view(keys@), key),
        under.node_kind.occupied() < UNDERFLOW_SPACE,
        under.node_kind.occupied() == node_space(under@.kind),
        from_tree(pre.disk(), children@[child_idx as int].0 as int, (h - 1) as nat, old(fq)@),
        deleted(
            pre,
            *old(pager),
            children@[child_idx as int].0 as int,
            (h - 1) as nat,
            child_lo(keys_view(keys@), lo, child_idx as int),
            child_hi(keys_view(keys@), hi, child_idx as int),
            key,
            old(fq)@,
            DeleteCOWStatus::DidUnderflow(under),
        ),
    ensures
        r is Err ==> r->Err_0 is UnexpectedError,
        r is Ok ==> written_anew(pre, final(fq)@, node_offset.0, r->Ok_0.1),
        r is Ok && pre.wf() && covered(
            pre.disk(),
            children@[child_idx as int].0 as int,
            (h - 1) as nat,
            old(pager).disk(),
            kids_of(under@.kind),
            (h - 2) as nat,
            old(fq)@,
        ) ==> reclaimed_del(
            pre.disk(),
            node_offset.0 as int,
            h,
            final(pager).disk(),
            final(fq)@,
            r->Ok_0.1,
        ),
        r is Ok && fresh_snug(pre, *old(pager), 0) && snug_at(
            pre.disk(),
            offsets_view(children@)[neighbour(child_idx as int)] as int,
        ) && rebalance_snug(
            keys_view(keys@),
            child_idx as int,
            kind_keys(under@.kind),
            kind_keys(
                node_at(
                    pre.disk(),
                    offsets_view(children@)[neighbour(child_idx as int)] as int,
                )->Some_0.kind,
            ),
            h == 1,
        ) ==> fresh_snug(pre, *final(pager), spared(r->Ok_0.1)),
        r is Ok && r->Ok_0.1 is NewOffset ==> space_at(
            final(pager).disk(),
            r->Ok_0.1->NewOffset_0.0 as int,
        ) == rebalance_space(
            keys_view(keys@),
            child_idx as int,
            kind_keys(under@.kind),
            kind_keys(
                node_at(
                    pre.disk(),
                    offsets_view(children@)[neighbour(child_idx as int)] as int,
                )->Some_0.kind,
            ),
            h == 1,
        ),
        grew(pre, *final(pager)),
        from_tree(pre.disk(), node_offset.0 as int, h, final(fq)@),
        underflow_told(r),
        old(pager).curser <= final(pager).curser <= old(pager).curser + 3 * PAGE_SIZE,
        r is Ok && even_at(pre.disk(), node_offset.0 as int, key.len()) && fresh_fit(
            pre,
            *old(pager),
            0,
            key.len(),
        ) && even_keys(kind_keys(under@.kind), key.len()) && even_at(
            pre.disk(),
            offsets_view(children@)[neighbour(child_idx as int)] as int,
            key.len(),
        ) && snug_at(pre.disk(), offsets_view(children@)[neighbour(child_idx as int)] as int)
            ==> stays_full(pre, *final(pager), node_offset.0 as int, key.len(), r->Ok_0.1),
        !(rebalance_plan(
            keys_view(keys@),
            child_idx as int,
            kind_keys(under@.kind),
            kind_keys(
                node_at(
                    pre.disk(),
                    offsets_view(children@)[neighbour(child_idx as int)] as int,
                )->Some_0.kind,
            ),
            h == 1,
        ) is Stuck) && room(*old(pager), 3) ==> r is Ok,
        r is Ok ==> told(r->Ok_0.1, rebalance_plan(
            keys_view(keys@),
            child_idx as int,
            kind_keys(under@.kind),
            kind_keys(
                node_at(
                    pre.disk(),
                    offsets_view(children@)[neighbour(child_idx as int)] as int,
                )->Some_0.kind,
            ),
            h == 1,
        )),
        r is Ok ==> r->Ok_0.0 == removed_value && deleted(
            pre,
            *final(pager),
            node_offset.0 as int,
            h,
            lo,
            hi,
            key,
            final(fq)@,
            r->Ok_0.1,
        ),
{
    let ghost mid = *pager;
    let ghost o = node_offset.0 as int;
    let ghost ci = child_idx as int;
    let ghost old_fq = fq@;
    proof {
        lemma_from_tree_up(pre.disk(), o, h, lo, hi, ci, old_fq);
        assert(offsets_view(children@)[ci] == children@[ci].0);
    }
    let sibling_idx: usize = if child_idx == 0 {
        1
    } else {
        child_idx - 1
    };
    if sibling_idx >= children.len() {
        return Err(Error::UnexpectedError("DidUnderflow - only one child".to_owned()));
    }
    let ghost si = lower(child_idx, sibling_idx);
    let sibling_offset = children[sibling_idx];
    proof {
        assert(offsets_view(children@)[sibling_idx as int] == sibling_offset.0);
        if under.node_kind is Leaf {
            lemma_leaves_found(pre, mid, o, h, lo, hi, si, ci, key, old_fq, under);
        } else {
            lemma_internals_found(pre, mid, o, h, lo, hi, si, ci, key, old_fq, under);
        }
    }
    let sibling_node = read_node_at(pager, &sibling_offset)?;
    proof {
        assert(neighbour(ci) == sibling_idx);
        assert(offsets_view(children@).len() == keys_view(keys@).len() + 1);
        assert(sibling_node@ == node_at(pre.disk(), sibling_offset.0 as int)->Some_0);
        assert(under.node_kind is Leaf <==> h == 1) by {
            if under.node_kind is Internal {
                lemma_deleted_internal(
                    pre,
                    mid,
                    offsets_view(children@)[ci] as int,
                    (h - 1) as nat,
                    child_lo(keys_view(keys@), lo, ci),
                    child_hi(keys_view(keys@), hi, ci),
                    key,
                    old_fq,
                    under,
                );
            }
        }
        lemma_decode_space(page_at(pager.disk(), sibling_offset.0 as int));
        lemma_decode_space(page_at(pre.disk(), sibling_offset.0 as int));
        assert(sibling_node.node_kind.occupied() == space_at(pre.disk(), sibling_offset.0 as int));
        assert(kind_keys(sibling_node@.kind) == kind_keys(
            node_at(pre.disk(), sibling_offset.0 as int)->Some_0.kind,
        ));
        assert(keys_view(sibling_node.node_kind->Internal_keys@).len()
            == sibling_node.node_kind->Internal_keys@.len());
        assert(offsets_view(sibling_node.node_kind->Internal_children@).len()
            == sibling_node.node_kind->Internal_children@.len());
    }
    match under.node_kind {
        NodeKind::Leaf {
            next: _,
            previous: _,
            key_value_pairs: child_pairs,
            occupied_space: child_occupied,
        } => match sibling_node.node_kind {
            NodeKind::Leaf {
                next: _,
                previous: _,
                key_value_pairs: sibling_pairs,
                occupied_space: sibling_occupied,
            } => rebalance_leaves(
                pager,
                fq,
                keys,
                children,
                occupied_space,
                node_offset,
                child_idx,
                sibling_idx,
                child_pairs,
                child_occupied,
                sibling_pairs,
                sibling_occupied,
                removed_value,
                Ghost(pre),
                Ghost(h),
                Ghost(lo),
                Ghost(hi),
                Ghost(key),
            ),
            NodeKind::Internal { .. } => Err(
                Error::UnexpectedError(
                    "An internal node can only have either leaf *or* internal children.".to_owned(),
                ),
            ),
        },
        NodeKind::Internal {
            keys: child_keys,
            children: child_children,
            occupied_space: child_occupied,
        } => match sibling_node.node_kind {
            NodeKind::Internal {
                keys: sibling_keys,
                children: sibling_children,
                occupied_space: sibling_occupied,
            } => rebalance_internals(
                pager,
                fq,
                keys,
                children,
                occupied_space,
                node_offset,
                child_idx,
                sibling_idx,
                child_keys,
                child_children,
                child_occupied,
                sibling_keys,
                sibling_children,
                sibling_occupied,
                removed_value,
                Ghost(pre),
                Ghost(h),
                Ghost(lo),
                Ghost(hi),
                Ghost(key),
            ),
            NodeKind::Leaf { .. } => Err(
                Error::UnexpectedError(
                    "An internal node can only have either leaf *or* internal children.".to_owned(),
                ),
            ),
        },
    }
}

impl BTree {
    /// Rewrites the tree of the node `node`, stored at `node_offset`, for
    /// the deletion of `key`. No page in use is written to: each node on the
    /// way to the leaf is written anew to a page taken for it, and the page
    /// of the old one is put into `fq`. Where `key` is not in the tree,
    /// nothing is written.
    #[verifier::rlimit(60)]
    fn delete_cow(
        &mut self,
        fq: &mut FreeQueue,
        node: Node,
        node_offset: &Offset,
        key: &str,
        Ghost(h): Ghost<nat>,
        Ghost(lo): Ghost<Option<Key>>,
        Ghost(hi): Ghost<Option<Key>>,
    ) -> (r: Result<(Option<u64>, DeleteCOWStatus), Error>)
        requires
            old(self).pager.wf(),
            subtree(old(self).pager.disk(), node_offset.0 as int, h, lo, hi),
            node_at(old(self).pager.disk(), node_offset.0 as int) == Some(node@),
            node.node_kind.occupied() == space_at(old(self).pager.disk(), node_offset.0 as int),
            all_live(old(self).pager, node_offset.0 as int, h),
            old(fq)@.len() == 0,
        ensures
            final(self).height == old(self).height,
            lookup(old(self).pager.disk(), node_offset.0 as int, h, key_of(key@)) is None
                ==> key_not_found(r, key@) && final(self).pager == old(self).pager && final(fq)@
                == old(fq)@,
            grew(old(self).pager, final(self).pager),
            from_tree(old(self).pager.disk(), node_offset.0 as int, h, final(fq)@),
            underflow_told(r),
            r is Ok ==> r->Ok_0.0 == lookup(
                old(self).pager.disk(),
                node_offset.0 as int,
                h,
                key_of(key@),
            ) && r->Ok_0.0 is Some && deleted(
                old(self).pager,
                final(self).pager,
                node_offset.0 as int,
                h,
                lo,
                hi,
                key_of(key@),
                final(fq)@,
                r->Ok_0.1,
            ),
            h == 0 ==> final(self).pager.curser <= old(self).pager.curser + PAGE_SIZE,
            r is Ok ==> written_anew(old(self).pager, final(fq)@, node_offset.0, r->Ok_0.1),
            r is Ok ==> reclaimed_del(
                old(self).pager.disk(),
                node_offset.0 as int,
                h,
                final(self).pager.disk(),
                final(fq)@,
                r->Ok_0.1,
            ),
            r is Ok && snug_tree(old(self).pager.disk(), node_offset.0 as int, h) && delete_snug(
                old(self).pager.disk(),
                node_offset.0 as int,
                h,
                key_of(key@),
            ) ==> fresh_snug(old(self).pager, final(self).pager, spared(r->Ok_0.1)),
            r is Ok && r->Ok_0.1 is NewOffset ==> space_at(
                final(self).pager.disk(),
                r->Ok_0.1->NewOffset_0.0 as int,
            ) == after_space(old(self).pager.disk(), node_offset.0 as int, h, key_of(key@)),
            old(self).pager.curser <= final(self).pager.curser <= old(self).pager.curser + 3 * (h
                + 1) * PAGE_SIZE,
            r is Ok && filled(old(self).pager.disk(), node_offset.0 as int, h, key_of(key@).len())
                ==> stays_full(
                old(self).pager,
                final(self).pager,
                node_offset.0 as int,
                key_of(key@).len(),
                r->Ok_0.1,
            ),
            lookup(old(self).pager.disk(), node_offset.0 as int, h, key_of(key@)) is Some && r is Ok
                ==> told(
                r->Ok_0.1,
                plan(old(self).pager.disk(), node_offset.0 as int, h, key_of(key@)),
            ),
            lookup(old(self).pager.disk(), node_offset.0 as int, h, key_of(key@)) is Some && !(plan(
                old(self).pager.disk(),
                node_offset.0 as int,
                h,
                key_of(key@),
            ) is Stuck) && room(old(self).pager, 3 * (h + 1)) ==> r is Ok,
            lookup(old(self).pager.disk(), node_offset.0 as int, h, key_of(key@)) is Some && r is Err
                ==> r->Err_0 is UnexpectedError,
            h == 0 && r is Ok && r->Ok_0.1 is DidUnderflow ==> final(self).pager == old(self).pager
                && node_space(r->Ok_0.1->DidUnderflow_0@.kind) <= PAGE_SIZE,
            h == 0 && room(old(self).pager, 1) && lookup(
                old(self).pager.disk(),
                node_offset.0 as int,
                h,
                key_of(key@),
            ) is Some ==> r is Ok,
            leaf_stays(old(self).pager.disk(), node_offset.0 as int, h, key_of(key@)) && room(
                old(self).pager,
                h + 1,
            ) && lookup(old(self).pager.disk(), node_offset.0 as int, h, key_of(key@)) is Some
                ==> r is Ok && r->Ok_0.1 is NewOffset && final(self).pager.curser <= old(
                self,
            ).pager.curser + (h + 1) * PAGE_SIZE,
        decreases h,
    {
        let ghost pre = self.pager;
        let ghost o = node_offset.0 as int;
        let ghost k = key_of(key@);
        proof {
            assert(grew(pre, pre));
            assert(from_tree(pre.disk(), o, h, fq@));
        }
        let parent_offset = node.parent_offset;
        match node.node_kind {
            NodeKind::Leaf { next, previous, key_value_pairs, occupied_space } => {
                let leaf = Node::new(
                    NodeKind::Leaf { next, previous, key_value_pairs, occupied_space },
                    parent_offset,
                );
                proof {
                    assert(in_subtree(pre.disk(), o, h, o));
                }
                delete_leaf(&mut self.pager, fq, leaf, node_offset, key, Ghost(lo), Ghost(hi))
            },
            NodeKind::Internal { keys, children, occupied_space } => {
                let ghost all_keys = keys_view(keys@);
                let ghost kids = offsets_view(children@);
                proof {
                    lemma_subtree_internal(pre.disk(), o, h, lo, hi);
                }
                let idx = find_child(&keys, key);
                if idx >= children.len() {
                    return Err(Error::InternalNodeNoChild);
                }
                let child_offset = children[idx];
                let ghost clo = child_lo(all_keys, lo, idx as int);
                let ghost chi = child_hi(all_keys, hi, idx as int);
                proof {
                    assert(kids[idx as int] == child_offset.0);
                    assert(subtree(pre.disk(), child_offset.0 as int, (h - 1) as nat, clo, chi));
                    assert(all_live(pre, child_offset.0 as int, (h - 1) as nat)) by {
                        assert forall|p: int| #[trigger]
                            in_subtree(
                                pre.disk(),
                                child_offset.0 as int,
                                (h - 1) as nat,
                                p,
                            ) implies live(pre, p) by {
                            assert(in_subtree(pre.disk(), o, h, p));
                        }
                    }
                    assert(lookup(pre.disk(), o, h, k) == lookup_under(
                        pre.disk(),
                        all_keys,
                        kids,
                        (h - 1) as nat,
                        k,
                    ));
                    if snug_tree(pre.disk(), o, h) {
                        lemma_snug_child(pre.disk(), o, h, lo, hi, idx as int);
                        if 0 <= neighbour(idx as int) < kids.len() {
                            lemma_snug_child(pre.disk(), o, h, lo, hi, neighbour(idx as int));
                        }
                    }
                    if filled(pre.disk(), o, h, k.len()) {
                        assert(in_subtree(pre.disk(), o, h, o));
                        assert(even_at(pre.disk(), o, k.len()));
                        assert forall|i: int| 0 <= i < kids.len() implies in_subtree(
                            pre.disk(),
                            o,
                            h,
                            #[trigger] kids[i] as int,
                        ) && kids[i] != o by {
                            assert(in_subtree(
                                pre.disk(),
                                kids[i] as int,
                                (h - 1) as nat,
                                kids[i] as int,
                            ));
                            assert(!in_subtree(pre.disk(), kids[i] as int, (h - 1) as nat, o));
                        }
                        assert(kids[idx as int] != o);
                        if 0 <= neighbour(idx as int) < kids.len() {
                            assert(kids[neighbour(idx as int)] != o);
                        }
                        assert(filled(pre.disk(), child_offset.0 as int, (h - 1) as nat, k.len())) by {
                            assert forall|p: int| #[trigger]
                                in_subtree(
                                    pre.disk(),
                                    child_offset.0 as int,
                                    (h - 1) as nat,
                                    p,
                                ) implies even_at(pre.disk(), p, k.len()) && (p
                                != child_offset.0 ==> snug_at(pre.disk(), p)) by {
                                assert(in_subtree(pre.disk(), o, h, p));
                            }
                        }
                    }
                }
                let child = read_node_at(&self.pager, &child_offset)?;
                let sub = self.delete_cow(
                    fq,
                    child,
                    &child_offset,
                    key,
                    Ghost((h - 1) as nat),
                    Ghost(clo),
                    Ghost(chi),
                );
                proof {
                    lemma_from_tree_up(pre.disk(), o, h, lo, hi, idx as int, fq@);
                }
                match sub {
                    Err(e) => Err(e),
                    Ok((removed_value, DeleteCOWStatus::NewOffset(new_child))) => delete_rewritten(
                        &mut self.pager,
                        fq,
                        keys,
                        children,
                        occupied_space,
                        node_offset,
                        idx,
                        new_child,
                        removed_value,
                        Ghost(pre),
                        Ghost(h),
                        Ghost(lo),
                        Ghost(hi),
                        Ghost(k),
                    ),
                    Ok((removed_value, DeleteCOWStatus::DidUnderflow(under))) => delete_underflow(
                        &mut self.pager,
                        fq,
                        keys,
                        children,
                        occupied_space,
                        node_offset,
                        idx,
                        under,
                        removed_value,
                        Ghost(pre),
                        Ghost(h),
                        Ghost(lo),
                        Ghost(hi),
                        Ghost(k),
                    ),
                }
            },
        }
    }
}

/// Whether the tree of height `h2` stored at `n` is what is to be the tree
/// of the index after the deletion of `key`: sound, settled, and giving `key`
/// no value and every other key what it had.
pub open spec fn root_settled(
    pre: Pager,
    post: Pager,
    h: nat,
    key: Key,
    fq: Seq<usize>,
    n: Offset,
    h2: nat,
) -> bool {
    &&& subtree(post.disk(), n.0 as int, h2, None, None)
    &&& settled(pre, post, root_of(pre), h, n.0 as int, h2, fq)
    &&& forall|k: Key| #[trigger]
        lookup(post.disk(), n.0 as int, h2, k) == without(pre.disk(), root_of(pre), h, key, k)
}

/// The only child of a root without a separator, which underflows, is what
/// is to be the tree of the index.
#[verifier::rlimit(60)]
pub proof fn lemma_root_promoted(
    pre: Pager,
    cur: Pager,
    h: nat,
    key: Key,
    fq: Seq<usize>,
    node: Node,
    child: Offset,
)
    requires
        deleted(pre, cur, root_of(pre), h, None, None, key, fq, DeleteCOWStatus::DidUnderflow(node)),
        node.node_kind is Internal,
        node@.kind->Internal_keys.len() == 0,
        node@.kind->Internal_children.len() == 1,
        node@.kind->Internal_children[0] == child.0,
    ensures
        h > 0,
        root_settled(pre, cur, h, key, fq, child, (h - 1) as nat),
{
    reveal(deleted);
    reveal(ready);
    let keys = node@.kind->Internal_keys;
    let kids = node@.kind->Internal_children;
    assert(subtree(
        cur.disk(),
        kids[0] as int,
        (h - 1) as nat,
        child_lo(keys, None, 0),
        child_hi(keys, None, 0),
    ));
    assert(settled(pre, cur, root_of(pre), h, kids[0] as int, (h - 1) as nat, fq));
    assert forall|k: Key| #[trigger]
        lookup(cur.disk(), child.0 as int, (h - 1) as nat, k) == without(
            pre.disk(),
            root_of(pre),
            h,
            key,
            k,
        ) by {
        assert(route(keys, k) == 0);
        assert(lookup_under(cur.disk(), keys, kids, (h - 1) as nat, k) == without(
            pre.disk(),
            root_of(pre),
            h,
            key,
            k,
        ));
    }
}

/// A root that underflows, written as it is, is what is to be the tree of
/// the index.
#[verifier::rlimit(60)]
pub proof fn lemma_root_written(
    pre: Pager,
    cur: Pager,
    post: Pager,
    h: nat,
    key: Key,
    fq: Seq<usize>,
    node: Node,
    n: Offset,
)
    requires
        sound(pre, h),
        grew(pre, cur),
        from_tree(pre.disk(), root_of(pre), h, fq),
        deleted(pre, cur, root_of(pre), h, None, None, key, fq, DeleteCOWStatus::DidUnderflow(node)),
        grew(cur, post),
        !live(cur, n.0 as int),
        live(post, n.0 as int),
        node_at(post.disk(), n.0 as int) == Some(node@),
        space_at(post.disk(), n.0 as int) <= PAGE_SIZE,
    ensures
        root_settled(pre, post, h, key, fq, n, h),
{
    let o = root_of(pre);
    assert(in_subtree(pre.disk(), o, h, o));
    assert forall|x: usize| fq.contains(x) implies live(pre, x as int) by {
        let i = choose|i: int| 0 <= i < fq.len() && fq[i] == x;
        assert(in_subtree(pre.disk(), o, h, fq[i] as int));
    }
    assert(!live(pre, n.0 as int)) by {
        if live(pre, n.0 as int) {
            assert(live(cur, n.0 as int));
        }
    }
    if node.node_kind is Leaf {
        lemma_deleted_leaf(pre, cur, o, h, None, None, key, fq, node);
        lemma_leaf_subtree(post.disk(), n.0 as int, None, None);
        assert forall|p: int| #[trigger] in_subtree(post.disk(), n.0 as int, h, p) implies live(
            post,
            p,
        ) && ((in_subtree(pre.disk(), o, h, p) && p != o) || !live(pre, p)) && !fq.contains(
            p as usize,
        ) by {
            assert(p == n.0);
        }
    } else {
        lemma_deleted_internal(pre, cur, o, h, None, None, key, fq, node);
        lemma_assemble(
            pre,
            cur,
            post,
            o,
            h,
            n.0 as int,
            h,
            node@.kind->Internal_keys,
            node@.kind->Internal_children,
            None,
            None,
            fq,
            fq,
        );
        assert forall|k: Key| #[trigger]
            lookup(post.disk(), n.0 as int, h, k) == without(pre.disk(), o, h, key, k) by {
            assert(lookup(post.disk(), n.0 as int, h, k) == lookup_under(
                cur.disk(),
                node@.kind->Internal_keys,
                node@.kind->Internal_children,
                (h - 1) as nat,
                k,
            ));
        }
    }
}

/// A map that gives `key` no value and every other key what `before` gives
/// it is `before` with `key` taken out.
#[verifier::rlimit(60)]
pub proof fn lemma_view_removed(before: BTree, after: BTree, key: Seq<char>)
    requires
        forall|k: Key| #[trigger]
            lookup(after.pager.disk(), after.root(), after.height@, k) == without(
                before.pager.disk(),
                before.root(),
                before.height@,
                key_of(key),
                k,
            ),
    ensures
        after@ == before@.remove(key),
{
    assert forall|s: Seq<char>| #[trigger] after@.contains_key(s) <==> before@.remove(
        key,
    ).contains_key(s) by {
        if key_of(s) == key_of(key) {
            lemma_key_of_injective(s, key);
        }
        assert(lookup(after.pager.disk(), after.root(), after.height@, key_of(s)) == without(
            before.pager.disk(),
            before.root(),
            before.height@,
            key_of(key),
            key_of(s),
        ));
    }
    assert forall|s: Seq<char>| #[trigger] after@.contains_key(s) implies after@[s]
        == before@.remove(key)[s] by {
        if key_of(s) == key_of(key) {
            lemma_key_of_injective(s, key);
        }
        assert(lookup(after.pager.disk(), after.root(), after.height@, key_of(s)) == without(
            before.pager.disk(),
            before.root(),
            before.height@,
            key_of(key),
            key_of(s),
        ));
    }
    assert(after@ =~= before@.remove(key));
}

impl BTree {
    /// Settles what is to be the root after a deletion left the root with
    /// less than the space that a node must occupy. An internal root without
    /// a separator has one child, and that child becomes the root. Any other
    /// root is written as it is: the root may underflow.
    #[verifier::rlimit(60)]
    fn settle_root(
        &mut self,
        node: Node,
        Ghost(pre): Ghost<Pager>,
        Ghost(key): Ghost<Key>,
        Ghost(fq): Ghost<Seq<usize>>,
    ) -> (r: Result<(Offset, Ghost<nat>), Error>)
        requires
            old(self).pager.wf(),
            sound(pre, old(self).height@),
            grew(pre, old(self).pager),
            from_tree(pre.disk(), root_of(pre), old(self).height@, fq),
            deleted(
                pre,
                old(self).pager,
                root_of(pre),
                old(self).height@,
                None,
                None,
                key,
                fq,
                DeleteCOWStatus::DidUnderflow(node),
            ),
        ensures
            r is Err ==> r->Err_0 is UnexpectedError,
            final(self).height == old(self).height,
            grew(pre, final(self).pager),
            r is Err ==> final(self).pager == old(self).pager,
            r is Ok ==> root_settled(
                pre,
                final(self).pager,
                old(self).height@,
                key,
                fq,
                r->Ok_0.0,
                r->Ok_0.1@,
            ),
            node_space(node@.kind) <= PAGE_SIZE && room(old(self).pager, 1) ==> r is Ok,
            old(self).pager.curser <= final(self).pager.curser <= old(self).pager.curser
                + PAGE_SIZE,
            r is Ok ==> r->Ok_0.1@ <= old(self).height@ <= r->Ok_0.1@ + 1,
            r is Ok && fresh_fit(pre, old(self).pager, 0, key.len()) && even_keys(
                kind_keys(node@.kind),
                key.len(),
            ) ==> fresh_fit(pre, final(self).pager, r->Ok_0.0.0 as int, key.len()),
            r is Ok && fresh_snug(pre, old(self).pager, 0) ==> fresh_snug(
                pre,
                final(self).pager,
                r->Ok_0.0.0 as int,
            ),
            r is Ok && covered(
                pre.disk(),
                root_of(pre),
                old(self).height@,
                old(self).pager.disk(),
                kids_of(node@.kind),
                (old(self).height@ - 1) as nat,
                fq,
            ) ==> accounted_but(
                pre.disk(),
                root_of(pre),
                old(self).height@,
                final(self).pager.disk(),
                r->Ok_0.0.0 as int,
                r->Ok_0.1@,
                fq,
            ),
    {
        let ghost cur = self.pager;
        let ghost h = self.height@;
        let lonely = match &node.node_kind {
            NodeKind::Internal { keys, children, occupied_space } => {
                if keys.len() == 0 && children.len() == 1 {
                    Some(children[0])
                } else {
                    None
                }
            },
            NodeKind::Leaf { .. } => None,
        };
        match lonely {
            Some(child) => {
                proof {
                    assert(keys_view(node.node_kind->Internal_keys@).len() == 0);
                    assert(offsets_view(node.node_kind->Internal_children@)[0] == child.0);
                    lemma_root_promoted(pre, cur, h, key, fq, node, child);
                    if covered(
                        pre.disk(),
                        root_of(pre),
                        h,
                        cur.disk(),
                        kids_of(node@.kind),
                        (h - 1) as nat,
                        fq,
                    ) {
                        let kids = kids_of(node@.kind);
                        assert forall|p: int| #[trigger]
                            in_subtree(pre.disk(), root_of(pre), h, p) implies p == root_of(pre)
                            || fq.contains(p as usize) || in_subtree(
                            cur.disk(),
                            child.0 as int,
                            (h - 1) as nat,
                            p,
                        ) by {
                            if in_any(cur.disk(), kids, (h - 1) as nat, p) {
                                let i = choose|i: int|
                                    0 <= i < kids.len() && in_subtree(
                                        cur.disk(),
                                        #[trigger] kids[i] as int,
                                        (h - 1) as nat,
                                        p,
                                    );
                                assert(kids[i] == child.0);
                            }
                        }
                    }
                }
                Ok((child, Ghost((h - 1) as nat)))
            },
            None => {
                proof {
                    if node.node_kind is Leaf {
                        lemma_deleted_leaf(pre, cur, root_of(pre), h, None, None, key, fq, node);
                    } else {
                        lemma_deleted_internal(pre, cur, root_of(pre), h, None, None, key, fq, node);
                    }
                    if node_space(node@.kind) <= PAGE_SIZE {
                        lemma_encode_fits(node@);
                    }
                }
                let n = write_node(&mut self.pager, &node)?;
                proof {
                    lemma_grew_transitive(pre, cur, self.pager);
                    lemma_root_written(pre, cur, self.pager, h, key, fq, node, n);
                    if covered(
                        pre.disk(),
                        root_of(pre),
                        h,
                        cur.disk(),
                        kids_of(node@.kind),
                        (h - 1) as nat,
                        fq,
                    ) {
                        if node.node_kind is Internal {
                            let more = fq.push(root_of(pre) as usize);
                            assert(more.contains(root_of(pre) as usize)) by {
                                assert(more[fq.len() as int] == root_of(pre) as usize);
                            }
                            assert forall|x: usize| fq.contains(x) implies more.contains(x) by {
                                let i = choose|i: int| 0 <= i < fq.len() && fq[i] == x;
                                assert(more[i] == x);
                            }
                            lemma_account_node(
                                pre,
                                cur,
                                self.pager,
                                root_of(pre),
                                h,
                                node@.kind->Internal_keys,
                                node@.kind->Internal_children,
                                (h - 1) as nat,
                                None,
                                None,
                                n.0 as int,
                                fq,
                                more,
                            );
                            assert forall|p: int| #[trigger]
                                in_subtree(pre.disk(), root_of(pre), h, p) implies p == root_of(
                                pre,
                            ) || fq.contains(p as usize) || in_subtree(
                                self.pager.disk(),
                                n.0 as int,
                                h,
                                p,
                            ) by {
                                if more.contains(p as usize) && !fq.contains(p as usize) {
                                    let i = choose|i: int|
                                        0 <= i < more.len() && more[i] == p as usize;
                                    if i < fq.len() {
                                        assert(fq[i] == p as usize);
                                    }
                                    assert(live(pre, p));
                                    assert(0 <= p < pre.curser);
                                }
                            }
                        } else {
                            assert(kids_of(node@.kind).len() == 0);
                        }
                    }
                    if fresh_snug(pre, cur, 0) {
                        lemma_snug_more(pre, cur, self.pager, n.0 as int, 0, n.0 as int);
                    }
                    if fresh_fit(pre, cur, 0, key.len()) && even_keys(
                        kind_keys(node@.kind),
                        key.len(),
                    ) {
                        lemma_fresh_more(pre, cur, self.pager, n.0 as int, 0, n.0 as int, key.len());
                    }
                }
                Ok((n, Ghost(h)))
            },
        }
    }

    /// Takes `key` out of the index and gives the value it had. A key that
    /// the index does not hold is refused with `KeyNotFound`, and nothing is
    /// written. For a key that the index holds, `plan` tells from the tree
    /// what the deletion does on the way up from the leaf. Where `plan` is
    /// stuck, because a node that has to be written no longer fits in a page
    /// or a node that underflows has no neighbour, the deletion fails with
    /// `UnexpectedError`. Else the key is taken out, unless the storage had
    /// to grow beyond the offsets that the machine can hold: no more than
    /// three pages are taken for each level of the tree, and one for the
    /// root. The key is taken out in particular where the tree is one leaf,
    /// or where its leaf still occupies the space that a node must without
    /// it. Success leaves a sound index that holds what it held but the key;
    /// any failure leaves a sound index that holds what it held. Every page
    /// of the old tree that is no page of the new one is in the free list
    /// afterwards. An index that is snug stays snug where `delete_snug`
    /// holds, and an index whose keys all have as many bytes as `key`, and
    /// whose nodes but the root each occupy the space that a node must, stays
    /// such an index.
    #[verifier::rlimit(100)]
    pub fn delete(&mut self, key: &str) -> (r: Result<Option<u64>, Error>)
        requires
            old(self).valid(),
        ensures
            !old(self)@.contains_key(key@) ==> key_not_found(r, key@) && final(self).pager == old(
                self,
            ).pager && final(self).height == old(self).height,
            old(self)@.contains_key(key@) && room(old(self).pager, old(self).height@ + 1) && (old(
                self,
            ).height@ == 0 || leaf_stays(
                old(self).pager.disk(),
                old(self).root(),
                old(self).height@,
                key_of(key@),
            )) ==> r is Ok,
            r is Err && old(self)@.contains_key(key@) ==> r->Err_0 is UnexpectedError,
            old(self)@.contains_key(key@) && plan(
                old(self).pager.disk(),
                old(self).root(),
                old(self).height@,
                key_of(key@),
            ) is Stuck ==> r is Err,
            old(self)@.contains_key(key@) && !(plan(
                old(self).pager.disk(),
                old(self).root(),
                old(self).height@,
                key_of(key@),
            ) is Stuck) && room(old(self).pager, 3 * old(self).height@ + 4) ==> r is Ok,
            r is Err ==> final(self).valid() && final(self)@ == old(self)@,
            r is Ok ==> old(self)@.contains_key(key@) && r->Ok_0 == Some(old(self)@[key@])
                && final(self).valid() && final(self)@ == old(self)@.remove(key@),
            r is Ok ==> crate::btree::durable(final(self).pager),
            final(self).height@ <= old(self).height@ <= final(self).height@ + 1,
            old(self).pager.curser <= final(self).pager.curser <= old(self).pager.curser + (3
                * old(self).height@ + 4) * PAGE_SIZE,
            rest_kept(old(self).pager, old(self).height@, final(self).pager, final(self).height@),
            r is Ok ==> final(self).pager.free_list()->Some_0.contains(old(self).root()),
            r is Ok ==> forall|p: int| #[trigger]
                in_subtree(old(self).pager.disk(), old(self).root(), old(self).height@, p)
                    && !in_subtree(
                    final(self).pager.disk(),
                    final(self).root(),
                    final(self).height@,
                    p,
                ) ==> final(self).pager.free_list()->Some_0.contains(p),
            r is Ok && well_filled(*old(self), key_of(key@).len()) ==> well_filled(
                *final(self),
                key_of(key@).len(),
            ),
            r is Ok && all_snug(*old(self)) && delete_snug(
                old(self).pager.disk(),
                old(self).root(),
                old(self).height@,
                key_of(key@),
            ) ==> all_snug(*final(self)),
            r is Err && all_snug(*old(self)) ==> all_snug(*final(self)),
            forall|len: nat|
                r is Err && #[trigger] well_filled(*old(self), len) ==> well_filled(*final(self), len),
    {
        let ghost before = *self;
        let ghost pre = self.pager;
        let ghost h = self.height@;
        let ghost k = key_of(key@);
        proof {
            lemma_view_same(before, *self);
            assert(grew(pre, pre));
            lemma_rest_grew(pre, h, pre);
            lemma_filled_grew(pre, pre, h);
            lemma_snug_grew(pre, pre, h);
        }
        let mut fq = FreeQueue::new();
        let root_offset = self.root_offset()?;
        let ghost o = root_offset.0 as int;
        let root = self.read_node(&root_offset)?;
        let sub = self.delete_cow(&mut fq, root, &root_offset, key, Ghost(h), Ghost(None), Ghost(None));
        proof {
            lemma_sound_grew(pre, self.pager, h);
            lemma_view_same(before, *self);
            lemma_rest_grew(pre, h, self.pager);
            lemma_filled_grew(pre, self.pager, h);
            lemma_snug_grew(pre, self.pager, h);
        }
        let (removed_value, status) = sub?;
        let ghost mid = self.pager;
        let ghost queue0 = fq@;
        let (new_root, Ghost(h2)) = match status {
            DeleteCOWStatus::NewOffset(n) => {
                proof {
                    lemma_deleted_one(pre, mid, o, h, None, None, k, queue0, n);
                }
                (n, Ghost(h))
            },
            DeleteCOWStatus::DidUnderflow(node) => {
                let settled_root = self.settle_root(node, Ghost(pre), Ghost(k), Ghost(queue0));
                proof {
                    lemma_sound_grew(pre, self.pager, h);
                    lemma_view_same(before, *self);
                    lemma_rest_grew(pre, h, self.pager);
                    lemma_filled_grew(pre, self.pager, h);
            lemma_snug_grew(pre, self.pager, h);
                }
                settled_root?
            },
        };
        let ghost p1 = self.pager;
        fq.add(root_offset);
        proof {
            assert(in_subtree(pre.disk(), o, h, o));
            lemma_from_tree_add(pre.disk(), o, h, queue0, fq@);
            assert forall|x: usize| fq@.contains(x) implies live(p1, x as int) by {
                let i = choose|i: int| 0 <= i < fq@.len() && fq@[i] == x;
                assert(in_subtree(pre.disk(), o, h, fq@[i] as int));
                assert(live(pre, x as int));
            }
            lemma_settled_more(pre, p1, o, h, new_root.0 as int, h2, queue0, fq@);
        }
        let ghost queue1 = fq@;
        let done = self.commit(fq, new_root, Ghost(h2));
        proof {
            lemma_view_removed(before, *self, key@);
            lemma_rest_kept(pre, h, p1, self.pager, new_root, h2, queue0, queue1);
            assert(accounted(pre.disk(), o, h, p1.disk(), new_root.0 as int, h2, queue1));
            lemma_reclaimed(pre, p1, self.pager, o, h, new_root.0 as int, h2, queue1);
            if snug_tree(pre.disk(), o, h) && delete_snug(pre.disk(), o, h, k) {
                lemma_snug_after(pre, p1, self.pager, o, h, new_root.0 as int, h2, queue1);
            }
            if filled(pre.disk(), o, h, k.len()) {
                lemma_filled_after(
                    pre,
                    p1,
                    self.pager,
                    o,
                    h,
                    new_root.0 as int,
                    h2,
                    queue1,
                    k.len(),
                );
            }
        }
        match done {
            Ok(()) => Ok(removed_value),
            Err(e) => Err(e),
        }
    }
}

} // verus!
