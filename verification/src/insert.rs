//! Putting a key in. The tree is written anew along the way from the root
//! to the leaf of the key; a node that has no room for what it is to hold is
//! cut in two.

use crate::btree::{
    BTree, durable, find_child, find_pair, lemma_rest_grew, lemma_rest_kept, lemma_sound_grew,
    lemma_view_same, rest_kept, root_of, sound, write_node,
};
use crate::delete::leaf_for;
use crate::error::Error;
use crate::fit::{
    lemma_full_internal_median, lemma_full_leaf_median, lemma_internal_halves_fit,
    lemma_keys_insert_space, lemma_leaf_halves_fit, lemma_leaf_sized,
};
use crate::key::{
    Key, key_lt, key_of, KeyOrder, lemma_key_not_lt, lemma_key_of_injective, lemma_key_trichotomy,
    str_order,
};
use crate::leaf::{
    leaf_ok, lemma_leaf_ok_insert, lemma_leaf_ok_split, lemma_leaf_subtree, lemma_subtree_leaf,
};
use crate::node::{
    key_storable, keys_space, keys_view, KeyValuePair, KindView, lemma_decode_space,
    lemma_encode_fits, lemma_pairs_space_at, lemma_string_key_storable, Node, node_space, NodeKind,
    offsets_view, pairs_space, pairs_view, storable,
};
use crate::occupancy::{
    all_snug, even_at, even_keys, filled, fresh_fit, fresh_snug, lemma_even_insert,
    lemma_even_internal_halves, lemma_even_leaf_halves, lemma_even_part, lemma_filled_after,
    lemma_filled_grew, lemma_fresh_more, lemma_fresh_one, lemma_snug_after, lemma_snug_child,
    lemma_snug_grew, lemma_snug_more, snug_at, snug_tree, well_filled,
};
use crate::outcome::{
    cut_with, insert_snug, internal_cut_snug, internal_space, leaf_cut_snug, leaf_roomy,
    lemma_leaf_for_frame, lemma_leaf_space, lemma_median_one, promoted,
};
use crate::page_layout::{KEY_MAX_SIZE, PAGE_SIZE, PTR_SIZE, VALUE_SIZE};
use crate::pager::{Disk, FreeQueue, is_page, Offset, page_at, Pager};
use crate::reclaim::{
    accounted, accounted_two, covered, in_any, lemma_account_node, lemma_account_two,
    lemma_cover_one, lemma_cover_two, lemma_reclaimed,
};
use crate::split::{
    find_median_key_idx, is_median, lemma_key_bytes_bound, pair_keys, split_key_value_pairs,
};
use crate::tree::{
    above, all_live, at_or_above, below, child_hi, child_lo, from_tree, grew, halves_written,
    in_subtree, internal_at, lemma_assemble, lemma_from_tree_add, lemma_from_tree_up,
    lemma_grew_transitive, lemma_halves_disjoint, lemma_halves_replaced, lemma_pairs_get_at,
    lemma_pairs_insert, lemma_ready_parts, lemma_ready_replace, lemma_ready_replace_two,
    lemma_ready_split, lemma_route_bounds, lemma_route_is, lemma_settled_more,
    lemma_subtree_internal, live, lookup, lookup_under, node_at, pages, pairs_get, ready, replaced,
    room, route, space_at, split_lookup, subtree, two_for_one,
};
use vstd::prelude::*;

verus! {

/// What rewriting a tree for an insertion gives back to the node above.
pub enum InsertCOWStatus {
    /// The tree was written anew and is stored at this offset.
    NewOffset(Offset),
    /// The tree was split in two: `first` holds what comes before
    /// `promoted_key`, `second` what does not.
    DidSplit { promoted_key: String, first: Offset, second: Offset },
}

/// Whether `status` is what the insertion of `key` with `value` into the
/// tree of height `h` stored at `o` in `pre` has to give: one tree, or two
/// that the promoted key parts, that have replaced the old tree and give
/// `key` the value `value` and every other key what the old tree gave it.
#[verifier::opaque]
pub open spec fn inserted(
    pre: Pager,
    post: Pager,
    o: int,
    h: nat,
    lo: Option<Key>,
    hi: Option<Key>,
    key: Key,
    value: u64,
    fq: Seq<usize>,
    status: InsertCOWStatus,
) -> bool {
    match status {
        InsertCOWStatus::NewOffset(n) => {
            &&& replaced(pre, post, o, h, n.0 as int, h, lo, hi, fq)
            &&& forall|k: Key| #[trigger]
                lookup(post.disk(), n.0 as int, h, k) == if k == key {
                    Some(value)
                } else {
                    lookup(pre.disk(), o, h, k)
                }
        },
        InsertCOWStatus::DidSplit { promoted_key, first, second } => {
            let m = key_of(promoted_key@);
            &&& key_storable(m)
            &&& above(lo, m)
            &&& below(m, hi)
            &&& replaced(pre, post, o, h, first.0 as int, h, lo, Some(m), fq)
            &&& replaced(pre, post, o, h, second.0 as int, h, Some(m), hi, fq)
            &&& pages(post.disk(), first.0 as int, h).disjoint(
                pages(post.disk(), second.0 as int, h),
            )
            &&& forall|k: Key| #[trigger]
                split_lookup(post.disk(), m, first.0 as int, second.0 as int, h, k) == if k
                    == key {
                    Some(value)
                } else {
                    lookup(pre.disk(), o, h, k)
                }
        },
    }
}

/// One leaf written in place of a leaf, with the pairs of the old leaf and
/// one more, is the insertion of that pair.
#[verifier::rlimit(60)]
pub proof fn lemma_leaf_inserted(
    pre: Pager,
    post: Pager,
    o: int,
    n: Offset,
    lo: Option<Key>,
    hi: Option<Key>,
    key: Key,
    value: u64,
    fq: Seq<usize>,
)
    requires
        subtree(pre.disk(), o, 0, lo, hi),
        all_live(pre, o, 0),
        grew(pre, post),
        !live(pre, n.0 as int),
        live(post, n.0 as int),
        node_at(post.disk(), n.0 as int) is Some,
        node_at(post.disk(), n.0 as int)->Some_0.kind is Leaf,
        space_at(post.disk(), n.0 as int) <= PAGE_SIZE,
        leaf_ok(node_at(post.disk(), n.0 as int)->Some_0.kind->Leaf_pairs, lo, hi),
        forall|k: Key| #[trigger]
            pairs_get(node_at(post.disk(), n.0 as int)->Some_0.kind->Leaf_pairs, k) == if k
                == key {
                Some(value)
            } else {
                pairs_get(node_at(pre.disk(), o)->Some_0.kind->Leaf_pairs, k)
            },
        forall|x: usize| fq.contains(x) ==> x == o,
    ensures
        inserted(pre, post, o, 0, lo, hi, key, value, fq, InsertCOWStatus::NewOffset(n)),
        from_tree(pre.disk(), o, 0, fq),
{
    reveal(inserted);
    lemma_leaf_subtree(post.disk(), n.0 as int, lo, hi);
    lemma_subtree_leaf(pre.disk(), o, lo, hi);
    assert(in_subtree(pre.disk(), o, 0, o));
    assert(live(pre, o));
    assert forall|i: int| 0 <= i < fq.len() implies in_subtree(
        pre.disk(),
        o,
        0,
        #[trigger] fq[i] as int,
    ) by {
        assert(fq.contains(fq[i]));
    }
    assert forall|p: int| #[trigger] in_subtree(post.disk(), n.0 as int, 0, p) implies live(post, p)
        && ((in_subtree(pre.disk(), o, 0, p) && p != o) || !live(pre, p)) && !fq.contains(
        p as usize,
    ) by {
        assert(p == n.0);
    }
    assert forall|k: Key| #[trigger]
        lookup(post.disk(), n.0 as int, 0, k) == if k == key {
            Some(value)
        } else {
            lookup(pre.disk(), o, 0, k)
        } by {
        assert(pairs_get(node_at(post.disk(), n.0 as int)->Some_0.kind->Leaf_pairs, k) == if k
            == key {
            Some(value)
        } else {
            pairs_get(node_at(pre.disk(), o)->Some_0.kind->Leaf_pairs, k)
        });
    }
}

/// Two leaves written in place of a leaf, with the pairs of the old leaf,
/// cut in two, and one more, are the insertion of that pair.
#[verifier::rlimit(60)]
pub proof fn lemma_leaf_split_inserted(
    pre: Pager,
    post: Pager,
    o: int,
    promoted_key: String,
    first: Offset,
    second: Offset,
    lo: Option<Key>,
    hi: Option<Key>,
    key: Key,
    value: u64,
    fq: Seq<usize>,
)
    requires
        subtree(pre.disk(), o, 0, lo, hi),
        all_live(pre, o, 0),
        grew(pre, post),
        first != second,
        !live(pre, first.0 as int),
        live(post, first.0 as int),
        !live(pre, second.0 as int),
        live(post, second.0 as int),
        key_storable(key_of(promoted_key@)),
        above(lo, key_of(promoted_key@)),
        below(key_of(promoted_key@), hi),
        node_at(post.disk(), first.0 as int) is Some,
        node_at(post.disk(), first.0 as int)->Some_0.kind is Leaf,
        space_at(post.disk(), first.0 as int) <= PAGE_SIZE,
        leaf_ok(
            node_at(post.disk(), first.0 as int)->Some_0.kind->Leaf_pairs,
            lo,
            Some(key_of(promoted_key@)),
        ),
        node_at(post.disk(), second.0 as int) is Some,
        node_at(post.disk(), second.0 as int)->Some_0.kind is Leaf,
        space_at(post.disk(), second.0 as int) <= PAGE_SIZE,
        leaf_ok(
            node_at(post.disk(), second.0 as int)->Some_0.kind->Leaf_pairs,
            Some(key_of(promoted_key@)),
            hi,
        ),
        forall|k: Key| #[trigger]
            pairs_get(node_at(pre.disk(), o)->Some_0.kind->Leaf_pairs, k) == if k == key {
                None
            } else if key_lt(k, key_of(promoted_key@)) {
                pairs_get(node_at(post.disk(), first.0 as int)->Some_0.kind->Leaf_pairs, k)
            } else {
                pairs_get(node_at(post.disk(), second.0 as int)->Some_0.kind->Leaf_pairs, k)
            },
        (if key_lt(key, key_of(promoted_key@)) {
            pairs_get(node_at(post.disk(), first.0 as int)->Some_0.kind->Leaf_pairs, key)
        } else {
            pairs_get(node_at(post.disk(), second.0 as int)->Some_0.kind->Leaf_pairs, key)
        }) == Some(value),
        forall|x: usize| fq.contains(x) ==> x == o,
    ensures
        inserted(
            pre,
            post,
            o,
            0,
            lo,
            hi,
            key,
            value,
            fq,
            InsertCOWStatus::DidSplit { promoted_key, first, second },
        ),
        from_tree(pre.disk(), o, 0, fq),
{
    reveal(inserted);
    let m = key_of(promoted_key@);
    let f = first.0 as int;
    let s = second.0 as int;
    lemma_leaf_subtree(post.disk(), f, lo, Some(m));
    lemma_leaf_subtree(post.disk(), s, Some(m), hi);
    lemma_subtree_leaf(pre.disk(), o, lo, hi);
    assert(in_subtree(pre.disk(), o, 0, o));
    assert(live(pre, o));
    assert forall|i: int| 0 <= i < fq.len() implies in_subtree(
        pre.disk(),
        o,
        0,
        #[trigger] fq[i] as int,
    ) by {
        assert(fq.contains(fq[i]));
    }
    assert forall|p: int| #[trigger] in_subtree(post.disk(), f, 0, p) implies live(post, p) && ((
    in_subtree(pre.disk(), o, 0, p) && p != o) || !live(pre, p)) && !fq.contains(p as usize) by {
        assert(p == f);
    }
    assert forall|p: int| #[trigger] in_subtree(post.disk(), s, 0, p) implies live(post, p) && ((
    in_subtree(pre.disk(), o, 0, p) && p != o) || !live(pre, p)) && !fq.contains(p as usize) by {
        assert(p == s);
    }
    assert(pages(post.disk(), f, 0).disjoint(pages(post.disk(), s, 0)));
    assert forall|k: Key| #[trigger]
        split_lookup(post.disk(), m, f, s, 0, k) == if k == key {
            Some(value)
        } else {
            lookup(pre.disk(), o, 0, k)
        } by {
        assert(pairs_get(node_at(pre.disk(), o)->Some_0.kind->Leaf_pairs, k) == if k == key {
            None
        } else if key_lt(k, m) {
            pairs_get(node_at(post.disk(), f)->Some_0.kind->Leaf_pairs, k)
        } else {
            pairs_get(node_at(post.disk(), s)->Some_0.kind->Leaf_pairs, k)
        });
    }
}

/// Puts `kv` into `pairs` where it keeps the order.
fn insert_pair(
    pairs: &mut Vec<KeyValuePair>,
    kv: KeyValuePair,
    Ghost(lo): Ghost<Option<Key>>,
    Ghost(hi): Ghost<Option<Key>>,
)
    requires
        leaf_ok(pairs_view(old(pairs)@), lo, hi),
        pairs_get(pairs_view(old(pairs)@), key_of(kv.key@)) is None,
        at_or_above(lo, key_of(kv.key@)),
        below(key_of(kv.key@), hi),
    ensures
        key_storable(key_of(kv.key@)) ==> leaf_ok(pairs_view(final(pairs)@), lo, hi),
        final(pairs)@.len() == old(pairs)@.len() + 1,
        exists|i: int|
            0 <= i <= old(pairs)@.len() && pairs_view(final(pairs)@) == #[trigger] pairs_view(
                old(pairs)@,
            ).insert(i, (key_of(kv.key@), kv.value)) && (i == 0 ==> old(pairs)@.len() == 0
                || key_lt(key_of(kv.key@), pairs_view(old(pairs)@)[0].0)),
        pairs_space(pairs_view(final(pairs)@)) == pairs_space(pairs_view(old(pairs)@)) + 1
            + key_of(kv.key@).len() + VALUE_SIZE,
        even_keys(pair_keys(pairs_view(old(pairs)@)), key_of(kv.key@).len()) ==> even_keys(
            pair_keys(pairs_view(final(pairs)@)),
            key_of(kv.key@).len(),
        ),
        forall|k: Key| #[trigger]
            pairs_get(pairs_view(final(pairs)@), k) == if k == key_of(kv.key@) {
                Some(kv.value)
            } else {
                pairs_get(pairs_view(old(pairs)@), k)
            },
{
    let ghost before = pairs_view(pairs@);
    let ghost pair = (key_of(kv.key@), kv.value);
    let idx = match find_pair(pairs, kv.key.as_str()) {
        Ok(i) => i,
        Err(i) => i,
    };
    pairs.insert(idx, kv);
    proof {
        assert(pairs_view(pairs@) =~= before.insert(idx as int, pair));
        lemma_pairs_insert(before, idx as int, pair);
        lemma_pairs_space_at(before.insert(idx as int, pair), idx as int);
        assert(before.insert(idx as int, pair).remove(idx as int) =~= before);
        if even_keys(pair_keys(before), pair.0.len()) {
            lemma_even_insert(pair_keys(before), idx as int, pair.0, pair.0.len());
            assert(pair_keys(before.insert(idx as int, pair)) =~= pair_keys(before).insert(
                idx as int,
                pair.0,
            ));
        }
        if key_storable(pair.0) {
            lemma_leaf_ok_insert(before, idx as int, pair, lo, hi);
        }
        if idx == 0 && before.len() > 0 {
            lemma_key_trichotomy(pair.0, before[0].0);
            if pair.0 == before[0].0 {
                lemma_pairs_get_at(before, 0);
            }
        }
    }
}

/// Whether every page of the tree of height `h` stored at `o` in `pre` is
/// among the pages `fq` to give back or a page of what the insertion gave.
pub open spec fn reclaimed(
    pre: Disk,
    o: int,
    h: nat,
    post: Disk,
    fq: Seq<usize>,
    status: InsertCOWStatus,
) -> bool {
    match status {
        InsertCOWStatus::NewOffset(n) => accounted(pre, o, h, post, n.0 as int, h, fq),
        InsertCOWStatus::DidSplit { promoted_key, first, second } => accounted_two(
            pre,
            o,
            h,
            post,
            first.0 as int,
            second.0 as int,
            h,
            fq,
        ),
    }
}

/// Whether what an insertion into the node stored at `o` has written
/// occupies the space that a node must, but that the one node written for a
/// node that did not need not: that node occupies no less than the old one.
pub open spec fn kept_snug(pre: Pager, post: Pager, o: int, status: InsertCOWStatus) -> bool {
    &&& fresh_snug(pre, post, exempt_of(status))
    &&& status is NewOffset ==> space_at(post.disk(), status->NewOffset_0.0 as int) >= space_at(
        pre.disk(),
        o,
    )
}

/// Whether `status` is what `promoted` foretells: one tree where no key
/// was to be promoted, two with the key that was.
pub open spec fn grown(status: InsertCOWStatus, foretold: Option<Key>) -> bool {
    match status {
        InsertCOWStatus::NewOffset(n) => foretold is None,
        InsertCOWStatus::DidSplit { promoted_key, first, second } => foretold == Some(
            key_of(promoted_key@),
        ),
    }
}

/// Whether the trees that an insertion gave back are stored in pages that
/// were not in use before, and two trees in two pages.
pub open spec fn taken(pre: Pager, status: InsertCOWStatus) -> bool {
    match status {
        InsertCOWStatus::NewOffset(n) => !live(pre, n.0 as int),
        InsertCOWStatus::DidSplit { promoted_key, first, second } => !live(pre, first.0 as int)
            && !live(pre, second.0 as int) && first.0 != second.0,
    }
}

/// Whether two leaves that an insertion gave back each hold a pair, and
/// the promoted key is the key of the first pair of the second.
pub open spec fn leaves_cut(disk: Disk, status: InsertCOWStatus) -> bool {
    match status {
        InsertCOWStatus::NewOffset(n) => true,
        InsertCOWStatus::DidSplit { promoted_key, first, second } => {
            &&& node_at(disk, first.0 as int) is Some
            &&& node_at(disk, first.0 as int)->Some_0.kind is Leaf
            &&& node_at(disk, first.0 as int)->Some_0.kind->Leaf_pairs.len() >= 1
            &&& node_at(disk, second.0 as int) is Some
            &&& node_at(disk, second.0 as int)->Some_0.kind is Leaf
            &&& node_at(disk, second.0 as int)->Some_0.kind->Leaf_pairs.len() >= 1
            &&& node_at(disk, second.0 as int)->Some_0.kind->Leaf_pairs[0].0 == key_of(
                promoted_key@,
            )
        },
    }
}

/// Whether two internal nodes that an insertion gave back each have a
/// child, and the first a separator.
pub open spec fn nodes_cut(disk: Disk, status: InsertCOWStatus) -> bool {
    match status {
        InsertCOWStatus::NewOffset(n) => true,
        InsertCOWStatus::DidSplit { promoted_key, first, second } => {
            &&& node_at(disk, first.0 as int) is Some
            &&& node_at(disk, first.0 as int)->Some_0.kind is Internal
            &&& node_at(disk, first.0 as int)->Some_0.kind->Internal_keys.len() >= 1
            &&& node_at(disk, first.0 as int)->Some_0.kind->Internal_children.len() >= 2
            &&& node_at(disk, second.0 as int) is Some
            &&& node_at(disk, second.0 as int)->Some_0.kind is Internal
            &&& node_at(disk, second.0 as int)->Some_0.kind->Internal_children.len() >= 1
        },
    }
}

/// The page that an insertion may have left with less than the space that
/// a node must occupy: the one tree it gave back, which stands where the old
/// one stood; none where it gave two.
pub open spec fn exempt_of(status: InsertCOWStatus) -> int {
    match status {
        InsertCOWStatus::NewOffset(n) => n.0 as int,
        InsertCOWStatus::DidSplit { .. } => 0,
    }
}

/// Whether the key that an insertion promoted, if any, has `len` bytes.
pub open spec fn promoted_even(status: InsertCOWStatus, len: nat) -> bool {
    match status {
        InsertCOWStatus::DidSplit { promoted_key, first, second } => key_of(promoted_key@).len()
            == len,
        _ => true,
    }
}

/// What an insertion of a key with `len` bytes into a node stored at `o`
/// whose keys have `len` bytes each has written: nodes with such keys, each
/// of which occupies the space that a node must, but that the one node
/// written for a node that did not need not.
pub open spec fn kept_full(
    pre: Pager,
    post: Pager,
    o: int,
    len: nat,
    status: InsertCOWStatus,
) -> bool {
    &&& fresh_fit(pre, post, exempt_of(status), len)
    &&& promoted_even(status, len)
    &&& status is NewOffset && snug_at(pre.disk(), o) ==> snug_at(
        post.disk(),
        status->NewOffset_0.0 as int,
    )
}

/// Whether a key that an insertion promoted is short enough to be stored.
pub open spec fn promoted_fits(r: Result<InsertCOWStatus, Error>) -> bool {
    match r {
        Ok(InsertCOWStatus::DidSplit { promoted_key, first, second }) => 1 <= key_of(
            promoted_key@,
        ).len() <= KEY_MAX_SIZE,
        _ => true,
    }
}

/// Rewrites a leaf for the insertion of `kv`: with the pair put in where
/// there is room for it, else cut in two with the pair put into its half.
#[verifier::rlimit(100)]
fn insert_leaf(
    pager: &mut Pager,
    fq: &mut FreeQueue,
    node: Node,
    node_offset: &Offset,
    kv: KeyValuePair,
    Ghost(lo): Ghost<Option<Key>>,
    Ghost(hi): Ghost<Option<Key>>,
) -> (r: Result<InsertCOWStatus, Error>)
    requires
        old(pager).wf(),
        node.node_kind is Leaf,
        subtree(old(pager).disk(), node_offset.0 as int, 0, lo, hi),
        node_at(old(pager).disk(), node_offset.0 as int) == Some(node@),
        node.node_kind.occupied() == space_at(old(pager).disk(), node_offset.0 as int),
        all_live(*old(pager), node_offset.0 as int, 0),
        old(fq)@.len() == 0,
        1 <= key_of(kv.key@).len() <= KEY_MAX_SIZE,
        at_or_above(lo, key_of(kv.key@)),
        below(key_of(kv.key@), hi),
        lookup(old(pager).disk(), node_offset.0 as int, 0, key_of(kv.key@)) is None,
    ensures
        grew(*old(pager), *final(pager)),
        from_tree(old(pager).disk(), node_offset.0 as int, 0, final(fq)@),
        promoted_fits(r),
        old(pager).curser <= final(pager).curser <= old(pager).curser + 2 * PAGE_SIZE,
        room(*old(pager), 2) ==> r is Ok,
        r is Err ==> r->Err_0 is UnexpectedError,
        r is Ok ==> final(fq)@.contains(node_offset.0) && taken(*old(pager), r->Ok_0)
            && leaves_cut(final(pager).disk(), r->Ok_0),
        r is Ok ==> reclaimed(
            old(pager).disk(),
            node_offset.0 as int,
            0,
            final(pager).disk(),
            final(fq)@,
            r->Ok_0,
        ),
        r is Ok ==> grown(
            r->Ok_0,
            promoted(old(pager).disk(), node_offset.0 as int, 0, key_of(kv.key@)),
        ),
        r is Ok && leaf_cut_snug(old(pager).disk(), node_offset.0 as int, key_of(kv.key@))
            ==> kept_snug(*old(pager), *final(pager), node_offset.0 as int, r->Ok_0),
        r is Ok && r->Ok_0 is NewOffset ==> space_at(
            final(pager).disk(),
            r->Ok_0->NewOffset_0.0 as int,
        ) == space_at(old(pager).disk(), node_offset.0 as int) + 1 + key_of(kv.key@).len()
            + VALUE_SIZE,
        r is Ok ==> inserted(
            *old(pager),
            *final(pager),
            node_offset.0 as int,
            0,
            lo,
            hi,
            key_of(kv.key@),
            kv.value,
            final(fq)@,
            r->Ok_0,
        ),
        r is Ok && even_at(old(pager).disk(), node_offset.0 as int, key_of(kv.key@).len())
            ==> kept_full(
            *old(pager),
            *final(pager),
            node_offset.0 as int,
            key_of(kv.key@).len(),
            r->Ok_0,
        ),
{
    let ghost pre = *pager;
    let ghost o = node_offset.0 as int;
    let ghost key = key_of(kv.key@);
    let ghost value = kv.value;
    let ghost old_pairs = node@.kind->Leaf_pairs;
    let ghost slot = 1 + key.len() + VALUE_SIZE;
    proof {
        lemma_subtree_leaf(pre.disk(), o, lo, hi);
        lemma_decode_space(page_at(pre.disk(), o));
        lemma_leaf_sized(old_pairs, lo, hi);
        lemma_string_key_storable(kv.key@);
        assert(grew(pre, pre));
        assert(from_tree(pre.disk(), o, 0, fq@));
    }
    let parent_offset = node.parent_offset;
    match node.node_kind {
        NodeKind::Internal { .. } => Err(Error::NodeParseError),
        NodeKind::Leaf { next, previous, mut key_value_pairs, occupied_space } => {
            let available_space = PAGE_SIZE - occupied_space;
            let required_space = 1 + kv.key.as_str().len() + VALUE_SIZE;
            if available_space < required_space {
                proof {
                    assert forall|i: int| 0 <= i < old_pairs.len() implies (#[trigger] pair_keys(
                        old_pairs,
                    )[i]).len() <= KEY_MAX_SIZE by {
                        assert(key_storable(old_pairs[i].0));
                    }
                    lemma_key_bytes_bound(pair_keys(old_pairs), old_pairs.len() as int);
                    lemma_full_leaf_median(old_pairs, slot);
                }
                let (promoted_key, mut sibling_pairs) = split_key_value_pairs(
                    &mut key_value_pairs,
                )?;
                let ghost m = key_of(promoted_key@);
                let ghost left = pairs_view(key_value_pairs@);
                let ghost right = pairs_view(sibling_pairs@);
                proof {
                    let cut = left.len() as int;
                    assert(left =~= old_pairs.subrange(0, cut));
                    assert(right =~= old_pairs.subrange(cut, old_pairs.len() as int));
                    assert(old_pairs[cut].0 == m);
                    assert(key_storable(old_pairs[cut].0));
                    assert(is_median(pair_keys(old_pairs), cut));
                    lemma_median_one(pair_keys(old_pairs), cut);
                    lemma_leaf_halves_fit(old_pairs, cut, slot);
                    let all_keys = pair_keys(old_pairs);
                    assert(pair_keys(left) =~= all_keys.subrange(0, cut));
                    assert(pair_keys(right) =~= all_keys.subrange(cut, all_keys.len() as int));
                    lemma_leaf_space(left);
                    lemma_leaf_space(right);
                    assert(all_keys[cut] == m);
                    if even_keys(all_keys, key.len()) {
                        lemma_leaf_space(old_pairs);
                        lemma_even_leaf_halves(all_keys, cut, key.len());
                        lemma_even_part(all_keys, 0, cut, key.len());
                        lemma_even_part(all_keys, cut, all_keys.len() as int, key.len());
                    }
                    lemma_leaf_ok_split(old_pairs, cut, lo, hi);
                    lemma_key_trichotomy(key, m);
                    if key == m {
                        lemma_pairs_get_at(old_pairs, cut);
                    }
                }
                let goes_right = match str_order(kv.key.as_str(), promoted_key.as_str()) {
                    KeyOrder::After => true,
                    _ => false,
                };
                if goes_right {
                    proof {
                        lemma_key_not_lt(key, m);
                    }
                    insert_pair(&mut sibling_pairs, kv, Ghost(Some(m)), Ghost(hi));
                } else {
                    insert_pair(&mut key_value_pairs, kv, Ghost(lo), Ghost(Some(m)));
                }
                let sibling = Node::new(
                    NodeKind::Leaf {
                        next: None,
                        previous: None,
                        key_value_pairs: sibling_pairs,
                        occupied_space: 0,
                    },
                    parent_offset,
                );
                let first_node = Node::new(
                    NodeKind::Leaf { next, previous, key_value_pairs, occupied_space: 0 },
                    None,
                );
                proof {
                    lemma_encode_fits(first_node@);
                    lemma_encode_fits(sibling@);
                }
                let first = write_node(pager, &first_node)?;
                let ghost mid = *pager;
                fq.add(*node_offset);
                let written = write_node(pager, &sibling);
                proof {
                    lemma_grew_transitive(pre, mid, *pager);
                    assert(from_tree(pre.disk(), o, 0, fq@)) by {
                        assert(in_subtree(pre.disk(), o, 0, o));
                        assert forall|i: int| 0 <= i < fq@.len() implies in_subtree(
                            pre.disk(),
                            o,
                            0,
                            #[trigger] fq@[i] as int,
                        ) by {
                            assert(fq@.contains(fq@[i]));
                        }
                    }
                }
                let second = written?;
                proof {
                    let post = *pager;
                    assert(live(mid, first.0 as int));
                    assert(page_at(post.disk(), first.0 as int) == page_at(
                        mid.disk(),
                        first.0 as int,
                    ));
                    assert(!live(pre, second.0 as int)) by {
                        if live(pre, second.0 as int) {
                            assert(live(mid, second.0 as int));
                        }
                    }
                    lemma_leaf_split_inserted(
                        pre,
                        post,
                        o,
                        promoted_key,
                        first,
                        second,
                        lo,
                        hi,
                        key,
                        value,
                        fq@,
                    );
                    lemma_decode_space(page_at(mid.disk(), first.0 as int));
                    lemma_decode_space(page_at(post.disk(), second.0 as int));
                    if leaf_cut_snug(pre.disk(), o, key) {
                        lemma_snug_more(pre, pre, mid, first.0 as int, 0, 0);
                        lemma_snug_more(pre, mid, post, second.0 as int, 0, 0);
                    }
                    if even_at(pre.disk(), o, key.len()) {
                        lemma_fresh_one(pre, mid, first.0 as int, 0, key.len());
                        lemma_fresh_more(pre, mid, post, second.0 as int, 0, 0, key.len());
                    }
                }
                Ok(InsertCOWStatus::DidSplit { promoted_key, first, second })
            } else {
                insert_pair(&mut key_value_pairs, kv, Ghost(lo), Ghost(hi));
                let new_node = Node::new(
                    NodeKind::Leaf { next, previous, key_value_pairs, occupied_space },
                    None,
                );
                proof {
                    lemma_encode_fits(new_node@);
                }
                let new_addr = write_node(pager, &new_node)?;
                fq.add(*node_offset);
                proof {
                    lemma_leaf_inserted(pre, *pager, o, new_addr, lo, hi, key, value, fq@);
                    lemma_decode_space(page_at(pager.disk(), new_addr.0 as int));
                    lemma_snug_more(pre, pre, *pager, new_addr.0 as int, 0, new_addr.0 as int);
                    if even_at(pre.disk(), o, key.len()) {
                        lemma_fresh_one(pre, *pager, new_addr.0 as int, new_addr.0 as int, key.len());
                    }
                }
                Ok(InsertCOWStatus::NewOffset(new_addr))
            }
        },
    }
}

/// A node written with one child replaced by the tree that an insertion
/// into that child gave is the insertion into the node.
#[verifier::rlimit(60)]
pub proof fn lemma_insert_rewritten(
    pre: Pager,
    mid: Pager,
    post: Pager,
    o: int,
    h: nat,
    lo: Option<Key>,
    hi: Option<Key>,
    idx: int,
    c2: Offset,
    n: Offset,
    key: Key,
    value: u64,
    fq: Seq<usize>,
    fq2: Seq<usize>,
)
    requires
        subtree(pre.disk(), o, h, lo, hi),
        node_at(pre.disk(), o)->Some_0.kind is Internal,
        all_live(pre, o, h),
        grew(pre, mid),
        grew(mid, post),
        0 <= idx < node_at(pre.disk(), o)->Some_0.kind->Internal_children.len(),
        idx == route(node_at(pre.disk(), o)->Some_0.kind->Internal_keys, key),
        inserted(
            pre,
            mid,
            node_at(pre.disk(), o)->Some_0.kind->Internal_children[idx] as int,
            (h - 1) as nat,
            child_lo(node_at(pre.disk(), o)->Some_0.kind->Internal_keys, lo, idx),
            child_hi(node_at(pre.disk(), o)->Some_0.kind->Internal_keys, hi, idx),
            key,
            value,
            fq,
            InsertCOWStatus::NewOffset(c2),
        ),
        from_tree(
            pre.disk(),
            node_at(pre.disk(), o)->Some_0.kind->Internal_children[idx] as int,
            (h - 1) as nat,
            fq,
        ),
        !live(mid, n.0 as int),
        live(post, n.0 as int),
        internal_at(
            post.disk(),
            n.0 as int,
            node_at(pre.disk(), o)->Some_0.kind->Internal_keys,
            node_at(pre.disk(), o)->Some_0.kind->Internal_children.update(idx, c2.0),
        ),
        forall|x: usize| fq2.contains(x) <==> fq.contains(x) || x == o,
    ensures
        inserted(pre, post, o, h, lo, hi, key, value, fq2, InsertCOWStatus::NewOffset(n)),
        from_tree(pre.disk(), o, h, fq2),
{
    reveal(inserted);
    let keys = node_at(pre.disk(), o)->Some_0.kind->Internal_keys;
    let children = node_at(pre.disk(), o)->Some_0.kind->Internal_children;
    let kids = children.update(idx, c2.0);
    let hc = (h - 1) as nat;
    lemma_subtree_internal(pre.disk(), o, h, lo, hi);
    lemma_ready_replace(pre, mid, o, h, lo, hi, idx, c2.0, fq);
    assert(in_subtree(pre.disk(), o, h, o));
    lemma_assemble(pre, mid, post, o, h, n.0 as int, h, keys, kids, lo, hi, fq, fq2);
    assert forall|i: int| 0 <= i < fq2.len() implies in_subtree(
        pre.disk(),
        o,
        h,
        #[trigger] fq2[i] as int,
    ) by {
        assert(fq2.contains(fq2[i]));
    }
    assert forall|k: Key| #[trigger]
        lookup(post.disk(), n.0 as int, h, k) == if k == key {
            Some(value)
        } else {
            lookup(pre.disk(), o, h, k)
        } by {
        assert(lookup(post.disk(), n.0 as int, h, k) == lookup_under(mid.disk(), keys, kids, hc, k));
        assert(lookup(pre.disk(), o, h, k) == lookup_under(pre.disk(), keys, children, hc, k));
        if route(keys, k) == idx {
            assert(lookup(mid.disk(), c2.0 as int, hc, k) == if k == key {
                Some(value)
            } else {
                lookup(pre.disk(), children[idx] as int, hc, k)
            });
        }
    }
}

/// Rewrites an internal node after an insertion below it gave one tree
/// back: with that tree in the place of the child.
#[verifier::rlimit(60)]
fn insert_rewritten(
    pager: &mut Pager,
    fq: &mut FreeQueue,
    keys: Vec<String>,
    children: Vec<Offset>,
    occupied_space: usize,
    node_offset: &Offset,
    idx: usize,
    new_child: Offset,
    Ghost(pre): Ghost<Pager>,
    Ghost(h): Ghost<nat>,
    Ghost(lo): Ghost<Option<Key>>,
    Ghost(hi): Ghost<Option<Key>>,
    Ghost(key): Ghost<Key>,
    Ghost(value): Ghost<u64>,
) -> (r: Result<InsertCOWStatus, Error>)
    requires
        old(pager).wf(),
        grew(pre, *old(pager)),
        subtree(pre.disk(), node_offset.0 as int, h, lo, hi),
        all_live(pre, node_offset.0 as int, h),
        node_at(pre.disk(), node_offset.0 as int)->Some_0.kind == (KindView::Internal {
            keys: keys_view(keys@),
            children: offsets_view(children@),
        }),
        idx < children@.len(),
        idx == route(keys_view(keys@), key),
        from_tree(pre.disk(), children@[idx as int].0 as int, (h - 1) as nat, old(fq)@),
        inserted(
            pre,
            *old(pager),
            children@[idx as int].0 as int,
            (h - 1) as nat,
            child_lo(keys_view(keys@), lo, idx as int),
            child_hi(keys_view(keys@), hi, idx as int),
            key,
            value,
            old(fq)@,
            InsertCOWStatus::NewOffset(new_child),
        ),
    ensures
        promoted_fits(r),
        grew(pre, *final(pager)),
        from_tree(pre.disk(), node_offset.0 as int, h, final(fq)@),
        old(pager).curser <= final(pager).curser <= old(pager).curser + PAGE_SIZE,
        room(*old(pager), 1) ==> r is Ok,
        r is Err ==> r->Err_0 is UnexpectedError,
        r is Ok ==> final(fq)@.contains(node_offset.0) && taken(*old(pager), r->Ok_0),
        r is Ok ==> leaf_for(final(pager).disk(), r->Ok_0->NewOffset_0.0 as int, h, key) == leaf_for(
            old(pager).disk(),
            new_child.0 as int,
            (h - 1) as nat,
            key,
        ) && space_at(
            final(pager).disk(),
            leaf_for(old(pager).disk(), new_child.0 as int, (h - 1) as nat, key),
        ) == space_at(
            old(pager).disk(),
            leaf_for(old(pager).disk(), new_child.0 as int, (h - 1) as nat, key),
        ),
        r is Ok && accounted(
            pre.disk(),
            children@[idx as int].0 as int,
            (h - 1) as nat,
            old(pager).disk(),
            new_child.0 as int,
            (h - 1) as nat,
            old(fq)@,
        ) ==> reclaimed(
            pre.disk(),
            node_offset.0 as int,
            h,
            final(pager).disk(),
            final(fq)@,
            r->Ok_0,
        ),
        r is Ok ==> space_at(final(pager).disk(), r->Ok_0->NewOffset_0.0 as int) == space_at(
            pre.disk(),
            node_offset.0 as int,
        ),
        r is Ok && fresh_snug(pre, *old(pager), new_child.0 as int) && snug_at(
            old(pager).disk(),
            new_child.0 as int,
        ) ==> kept_snug(pre, *final(pager), node_offset.0 as int, r->Ok_0),
        r is Ok ==> r->Ok_0 is NewOffset && node_at(
            final(pager).disk(),
            r->Ok_0->NewOffset_0.0 as int,
        ) is Some && node_at(final(pager).disk(), r->Ok_0->NewOffset_0.0 as int)->Some_0.kind == (
        KindView::Internal {
            keys: keys_view(keys@),
            children: offsets_view(children@).update(idx as int, new_child.0),
        }),
        r is Ok && even_at(pre.disk(), node_offset.0 as int, key.len()) && fresh_fit(
            pre,
            *old(pager),
            new_child.0 as int,
            key.len(),
        ) && snug_at(old(pager).disk(), new_child.0 as int) ==> kept_full(
            pre,
            *final(pager),
            node_offset.0 as int,
            key.len(),
            r->Ok_0,
        ),
        r is Ok ==> inserted(
            pre,
            *final(pager),
            node_offset.0 as int,
            h,
            lo,
            hi,
            key,
            value,
            final(fq)@,
            r->Ok_0,
        ),
{
    let ghost mid = *pager;
    let ghost o = node_offset.0 as int;
    let ghost old_children = offsets_view(children@);
    let ghost old_fq = fq@;
    proof {
        assert(old_children[idx as int] == children@[idx as int].0);
        lemma_from_tree_up(pre.disk(), o, h, lo, hi, idx as int, fq@);
        lemma_subtree_internal(pre.disk(), o, h, lo, hi);
    }
    let mut children = children;
    children[idx] = new_child;
    let node = Node::new(NodeKind::Internal { keys, children, occupied_space }, None);
    proof {
        assert(offsets_view(children@) =~= old_children.update(idx as int, new_child.0));
        assert(storable(node@));
        assert(node_space(node@.kind) <= PAGE_SIZE) by {
            lemma_decode_space(page_at(pre.disk(), o));
            assert(space_at(pre.disk(), o) <= PAGE_SIZE);
        }
        lemma_encode_fits(node@);
    }
    let n = write_node(pager, &node)?;
    fq.add(*node_offset);
    proof {
        lemma_grew_transitive(pre, mid, *pager);
        lemma_insert_rewritten(
            pre,
            mid,
            *pager,
            o,
            h,
            lo,
            hi,
            idx as int,
            new_child,
            n,
            key,
            value,
            old_fq,
            fq@,
        );
        lemma_decode_space(page_at(pager.disk(), n.0 as int));
        lemma_decode_space(page_at(pre.disk(), o));
        assert(leaf_for(pager.disk(), n.0 as int, h, key) == leaf_for(
            mid.disk(),
            new_child.0 as int,
            (h - 1) as nat,
            key,
        ) && page_at(
            pager.disk(),
            leaf_for(mid.disk(), new_child.0 as int, (h - 1) as nat, key),
        ) == page_at(mid.disk(), leaf_for(mid.disk(), new_child.0 as int, (h - 1) as nat, key))) by {
            lemma_inserted_one(
                pre,
                mid,
                old_children[idx as int] as int,
                (h - 1) as nat,
                child_lo(keys_view(keys@), lo, idx as int),
                child_hi(keys_view(keys@), hi, idx as int),
                key,
                value,
                old_fq,
                new_child,
            );
            assert forall|p: int| #[trigger]
                in_subtree(mid.disk(), new_child.0 as int, (h - 1) as nat, p) implies is_page(
                pager.disk(),
                p,
            ) && page_at(pager.disk(), p) == page_at(mid.disk(), p) by {
                assert(live(mid, p));
            }
            lemma_leaf_for_frame(
                mid.disk(),
                pager.disk(),
                new_child.0 as int,
                (h - 1) as nat,
                child_lo(keys_view(keys@), lo, idx as int),
                child_hi(keys_view(keys@), hi, idx as int),
                key,
            );
        }
        if accounted(
            pre.disk(),
            old_children[idx as int] as int,
            (h - 1) as nat,
            mid.disk(),
            new_child.0 as int,
            (h - 1) as nat,
            old_fq,
        ) {
            lemma_inserted_one(
                pre,
                mid,
                old_children[idx as int] as int,
                (h - 1) as nat,
                child_lo(keys_view(keys@), lo, idx as int),
                child_hi(keys_view(keys@), hi, idx as int),
                key,
                value,
                old_fq,
                new_child,
            );
            lemma_ready_replace(pre, mid, o, h, lo, hi, idx as int, new_child.0, old_fq);
            lemma_cover_one(pre, mid, o, h, lo, hi, idx as int, new_child.0, old_fq);
            lemma_account_node(
                pre,
                mid,
                *pager,
                o,
                h,
                keys_view(keys@),
                old_children.update(idx as int, new_child.0),
                (h - 1) as nat,
                lo,
                hi,
                n.0 as int,
                old_fq,
                fq@,
            );
        }
        if fresh_snug(pre, mid, new_child.0 as int) && snug_at(mid.disk(), new_child.0 as int) {
            lemma_snug_more(pre, mid, *pager, n.0 as int, new_child.0 as int, n.0 as int);
        }
        if even_at(pre.disk(), o, key.len()) && fresh_fit(pre, mid, new_child.0 as int, key.len())
            && snug_at(mid.disk(), new_child.0 as int) {
            lemma_fresh_more(
                pre,
                mid,
                *pager,
                n.0 as int,
                new_child.0 as int,
                n.0 as int,
                key.len(),
            );
        }
    }
    Ok(InsertCOWStatus::NewOffset(n))
}

/// What an insertion below the child `idx` of the sound node stored at `o`
/// gave where it split the child: the requirements of `two_for_one` and
/// the values of the two trees.
#[verifier::opaque]
pub open spec fn split_below(
    pre: Pager,
    mid: Pager,
    o: int,
    h: nat,
    lo: Option<Key>,
    hi: Option<Key>,
    idx: int,
    promoted_key: String,
    first: Offset,
    second: Offset,
    key: Key,
    value: u64,
    fq: Seq<usize>,
) -> bool {
    let keys = node_at(pre.disk(), o)->Some_0.kind->Internal_keys;
    let children = node_at(pre.disk(), o)->Some_0.kind->Internal_children;
    &&& subtree(pre.disk(), o, h, lo, hi)
    &&& node_at(pre.disk(), o)->Some_0.kind is Internal
    &&& all_live(pre, o, h)
    &&& grew(pre, mid)
    &&& 0 <= idx < children.len()
    &&& idx == route(keys, key)
    &&& inserted(
        pre,
        mid,
        children[idx] as int,
        (h - 1) as nat,
        child_lo(keys, lo, idx),
        child_hi(keys, hi, idx),
        key,
        value,
        fq,
        InsertCOWStatus::DidSplit { promoted_key, first, second },
    )
    &&& from_tree(pre.disk(), children[idx] as int, (h - 1) as nat, fq)
}

/// After an insertion split the child `idx`, the separators of the node
/// with the promoted key, and its children with the two trees, are ready,
/// and give each key what the insertion asks for.
#[verifier::rlimit(60)]
pub proof fn lemma_split_below_ready(
    pre: Pager,
    mid: Pager,
    o: int,
    h: nat,
    lo: Option<Key>,
    hi: Option<Key>,
    idx: int,
    promoted_key: String,
    first: Offset,
    second: Offset,
    key: Key,
    value: u64,
    fq: Seq<usize>,
)
    requires
        split_below(pre, mid, o, h, lo, hi, idx, promoted_key, first, second, key, value, fq),
    ensures
        h > 0,
        live(pre, o),
        ready(
            pre,
            mid,
            o,
            h,
            node_at(pre.disk(), o)->Some_0.kind->Internal_keys.insert(idx, key_of(promoted_key@)),
            node_at(pre.disk(), o)->Some_0.kind->Internal_children.update(idx, first.0).insert(
                idx + 1,
                second.0,
            ),
            (h - 1) as nat,
            lo,
            hi,
            fq,
        ),
        forall|k: Key| #[trigger]
            lookup_under(
                mid.disk(),
                node_at(pre.disk(), o)->Some_0.kind->Internal_keys.insert(
                    idx,
                    key_of(promoted_key@),
                ),
                node_at(pre.disk(), o)->Some_0.kind->Internal_children.update(idx, first.0).insert(
                    idx + 1,
                    second.0,
                ),
                (h - 1) as nat,
                k,
            ) == if k == key {
                Some(value)
            } else {
                lookup(pre.disk(), o, h, k)
            },
        forall|x: usize|
            fq.contains(x) ==> live(pre, x as int) && in_subtree(pre.disk(), o, h, x as int) && x
                != o,
{
    reveal(inserted);
    reveal(split_below);
    reveal(two_for_one);
    let keys = node_at(pre.disk(), o)->Some_0.kind->Internal_keys;
    let children = node_at(pre.disk(), o)->Some_0.kind->Internal_children;
    let m = key_of(promoted_key@);
    let keys2 = keys.insert(idx, m);
    let kids2 = children.update(idx, first.0).insert(idx + 1, second.0);
    let hc = (h - 1) as nat;
    lemma_subtree_internal(pre.disk(), o, h, lo, hi);
    assert(in_subtree(pre.disk(), o, h, o));
    assert(two_for_one(pre, mid, o, h, lo, hi, idx, m, first.0, second.0, fq));
    lemma_ready_replace_two(pre, mid, o, h, lo, hi, idx, m, first.0, second.0, fq);
    assert forall|k: Key| #[trigger]
        lookup_under(mid.disk(), keys2, kids2, hc, k) == if k == key {
            Some(value)
        } else {
            lookup(pre.disk(), o, h, k)
        } by {
        assert(lookup(pre.disk(), o, h, k) == lookup_under(pre.disk(), keys, children, hc, k));
        if route(keys, k) == idx {
            assert(split_lookup(mid.disk(), m, first.0 as int, second.0 as int, hc, k) == if k
                == key {
                Some(value)
            } else {
                lookup(pre.disk(), children[idx] as int, hc, k)
            });
        }
    }
}

/// One node written over separators and children that are ready and give
/// each key what the insertion asks for is the insertion into the node.
#[verifier::rlimit(60)]
pub proof fn lemma_insert_one(
    pre: Pager,
    mid: Pager,
    post: Pager,
    o: int,
    h: nat,
    lo: Option<Key>,
    hi: Option<Key>,
    keys: Seq<Key>,
    kids: Seq<usize>,
    n: Offset,
    key: Key,
    value: u64,
    fq: Seq<usize>,
    fq2: Seq<usize>,
)
    requires
        h > 0,
        live(pre, o),
        grew(pre, mid),
        grew(mid, post),
        ready(pre, mid, o, h, keys, kids, (h - 1) as nat, lo, hi, fq),
        forall|k: Key| #[trigger]
            lookup_under(mid.disk(), keys, kids, (h - 1) as nat, k) == if k == key {
                Some(value)
            } else {
                lookup(pre.disk(), o, h, k)
            },
        forall|x: usize|
            fq.contains(x) ==> live(pre, x as int) && in_subtree(pre.disk(), o, h, x as int),
        !live(mid, n.0 as int),
        live(post, n.0 as int),
        internal_at(post.disk(), n.0 as int, keys, kids),
        forall|x: usize| fq2.contains(x) <==> fq.contains(x) || x == o,
    ensures
        inserted(pre, post, o, h, lo, hi, key, value, fq2, InsertCOWStatus::NewOffset(n)),
        from_tree(pre.disk(), o, h, fq2),
{
    reveal(inserted);
    lemma_assemble(pre, mid, post, o, h, n.0 as int, h, keys, kids, lo, hi, fq, fq2);
    assert forall|i: int| 0 <= i < fq2.len() implies in_subtree(
        pre.disk(),
        o,
        h,
        #[trigger] fq2[i] as int,
    ) by {
        assert(fq2.contains(fq2[i]));
    }
    assert forall|k: Key| #[trigger]
        lookup(post.disk(), n.0 as int, h, k) == if k == key {
            Some(value)
        } else {
            lookup(pre.disk(), o, h, k)
        } by {
        assert(lookup(post.disk(), n.0 as int, h, k) == lookup_under(
            mid.disk(),
            keys,
            kids,
            (h - 1) as nat,
            k,
        ));
    }
}

/// Two nodes written over the halves of separators and children that are
/// ready and give each key what the insertion asks for, with the separator
/// at the cut promoted, are the insertion into the node.
#[verifier::rlimit(60)]
pub proof fn lemma_insert_two(
    pre: Pager,
    mid: Pager,
    pa: Pager,
    pb: Pager,
    o: int,
    h: nat,
    lo: Option<Key>,
    hi: Option<Key>,
    keys: Seq<Key>,
    kids: Seq<usize>,
    m: int,
    promoted_key: String,
    n1: Offset,
    n2: Offset,
    key: Key,
    value: u64,
    fq: Seq<usize>,
    fq2: Seq<usize>,
)
    requires
        halves_written(pre, mid, pa, pb, o, h, h, lo, hi, keys, kids, m, n1, n2, fq, fq2),
        forall|x: usize| fq2.contains(x) <==> fq.contains(x) || x == o,
        key_of(promoted_key@) == keys[m],
        forall|k: Key| #[trigger]
            lookup_under(mid.disk(), keys, kids, (h - 1) as nat, k) == if k == key {
                Some(value)
            } else {
                lookup(pre.disk(), o, h, k)
            },
    ensures
        inserted(
            pre,
            pb,
            o,
            h,
            lo,
            hi,
            key,
            value,
            fq2,
            InsertCOWStatus::DidSplit { promoted_key, first: n1, second: n2 },
        ),
        from_tree(pre.disk(), o, h, fq2),
{
    reveal(inserted);
    reveal(halves_written);
    let hc = (h - 1) as nat;
    let sep = keys[m];
    let lk = keys.subrange(0, m);
    let lc = kids.subrange(0, m + 1);
    let rk = keys.subrange(m + 1, keys.len() as int);
    let rc = kids.subrange(m + 1, kids.len() as int);
    let f = n1.0 as int;
    let s = n2.0 as int;
    lemma_halves_replaced(pre, mid, pa, pb, o, h, h, lo, hi, keys, kids, m, n1, n2, fq, fq2);
    lemma_halves_disjoint(pre, mid, pa, pb, o, h, h, lo, hi, keys, kids, m, n1, n2, fq, fq2);
    assert forall|i: int| 0 <= i < fq2.len() implies in_subtree(
        pre.disk(),
        o,
        h,
        #[trigger] fq2[i] as int,
    ) by {
        assert(fq2.contains(fq2[i]));
    }
    assert forall|k: Key| #[trigger]
        split_lookup(pb.disk(), sep, f, s, h, k) == if k == key {
            Some(value)
        } else {
            lookup(pre.disk(), o, h, k)
        } by {
        lemma_ready_split(pre, mid, o, h, keys, kids, hc, lo, hi, fq, m);
        assert(lookup(pb.disk(), f, h, k) == lookup_under(mid.disk(), lk, lc, hc, k));
        assert(lookup(pb.disk(), s, h, k) == lookup_under(mid.disk(), rk, rc, hc, k));
        assert(lookup_under(mid.disk(), keys, kids, hc, k) == if key_lt(k, sep) {
            lookup_under(mid.disk(), lk, lc, hc, k)
        } else {
            lookup_under(mid.disk(), rk, rc, hc, k)
        });
    }
}

/// Rewrites an internal node after an insertion below it split the child
/// `idx`: with the promoted key and the two trees put in where there is room
/// for them, else cut in two after they are put in.
#[verifier::rlimit(60)]
fn insert_split_child(
    pager: &mut Pager,
    fq: &mut FreeQueue,
    keys: Vec<String>,
    children: Vec<Offset>,
    occupied_space: usize,
    node_offset: &Offset,
    idx: usize,
    promoted_key: String,
    first: Offset,
    second: Offset,
    Ghost(pre): Ghost<Pager>,
    Ghost(h): Ghost<nat>,
    Ghost(lo): Ghost<Option<Key>>,
    Ghost(hi): Ghost<Option<Key>>,
    Ghost(key): Ghost<Key>,
    Ghost(value): Ghost<u64>,
) -> (r: Result<InsertCOWStatus, Error>)
    requires
        old(pager).wf(),
        grew(pre, *old(pager)),
        subtree(pre.disk(), node_offset.0 as int, h, lo, hi),
        all_live(pre, node_offset.0 as int, h),
        node_at(pre.disk(), node_offset.0 as int)->Some_0.kind == (KindView::Internal {
            keys: keys_view(keys@),
            children: offsets_view(children@),
        }),
        occupied_space == space_at(pre.disk(), node_offset.0 as int),
        idx < children@.len(),
        idx == route(keys_view(keys@), key),
        1 <= key_of(promoted_key@).len() <= KEY_MAX_SIZE,
        from_tree(pre.disk(), children@[idx as int].0 as int, (h - 1) as nat, old(fq)@),
        split_below(
            pre,
            *old(pager),
            node_offset.0 as int,
            h,
            lo,
            hi,
            idx as int,
            promoted_key,
            first,
            second,
            key,
            value,
            old(fq)@,
        ),
    ensures
        grew(pre, *final(pager)),
        from_tree(pre.disk(), node_offset.0 as int, h, final(fq)@),
        promoted_fits(r),
        old(pager).curser <= final(pager).curser <= old(pager).curser + 2 * PAGE_SIZE,
        room(*old(pager), 2) ==> r is Ok,
        r is Err ==> r->Err_0 is UnexpectedError,
        r is Ok ==> final(fq)@.contains(node_offset.0) && taken(*old(pager), r->Ok_0),
        r is Ok ==> nodes_cut(final(pager).disk(), r->Ok_0),
        r is Ok && accounted_two(
            pre.disk(),
            children@[idx as int].0 as int,
            (h - 1) as nat,
            old(pager).disk(),
            first.0 as int,
            second.0 as int,
            (h - 1) as nat,
            old(fq)@,
        ) ==> reclaimed(
            pre.disk(),
            node_offset.0 as int,
            h,
            final(pager).disk(),
            final(fq)@,
            r->Ok_0,
        ),
        r is Ok && fresh_snug(pre, *old(pager), 0) && internal_cut_snug(
            keys_view(keys@),
            idx as int,
            key_of(promoted_key@),
            occupied_space as int,
        ) ==> kept_snug(pre, *final(pager), node_offset.0 as int, r->Ok_0),
        r is Ok ==> grown(
            r->Ok_0,
            cut_with(keys_view(keys@), idx as int, key_of(promoted_key@), occupied_space as int),
        ),
        r is Ok && even_at(pre.disk(), node_offset.0 as int, key.len()) && fresh_fit(
            pre,
            *old(pager),
            0,
            key.len(),
        ) && key_of(promoted_key@).len() == key.len() ==> kept_full(
            pre,
            *final(pager),
            node_offset.0 as int,
            key.len(),
            r->Ok_0,
        ),
        r is Ok ==> inserted(
            pre,
            *final(pager),
            node_offset.0 as int,
            h,
            lo,
            hi,
            key,
            value,
            final(fq)@,
            r->Ok_0,
        ),
{
    let ghost mid = *pager;
    let ghost o = node_offset.0 as int;
    let ghost old_keys = keys_view(keys@);
    let ghost old_children = offsets_view(children@);
    let ghost old_fq = fq@;
    let ghost m = key_of(promoted_key@);
    let ghost keys2 = old_keys.insert(idx as int, m);
    let ghost kids2 = old_children.update(idx as int, first.0).insert(idx + 1, second.0);
    proof {
        assert(old_children[idx as int] == children@[idx as int].0);
        lemma_from_tree_up(pre.disk(), o, h, lo, hi, idx as int, fq@);
        lemma_subtree_internal(pre.disk(), o, h, lo, hi);
        lemma_string_key_storable(promoted_key@);
        lemma_keys_insert_space(old_keys, idx as int, m);
        assert(occupied_space == node_space(node_at(pre.disk(), o)->Some_0.kind)
            && occupied_space <= PAGE_SIZE) by {
            lemma_decode_space(page_at(pre.disk(), o));
            assert(space_at(pre.disk(), o) <= PAGE_SIZE);
        }
        lemma_split_below_ready(
            pre,
            mid,
            o,
            h,
            lo,
            hi,
            idx as int,
            promoted_key,
            first,
            second,
            key,
            value,
            old_fq,
        );
    }
    let available_space = PAGE_SIZE - occupied_space;
    let required_space = PTR_SIZE + promoted_key.as_str().len() + 1 + 1;
    let mut keys = keys;
    let mut children = children;
    children[idx] = first;
    children.insert(idx + 1, second);
    keys.insert(idx, promoted_key);
    proof {
        assert(keys_view(keys@) =~= keys2);
        assert(offsets_view(children@) =~= kids2);
    }
    if available_space < required_space {
        proof {
            assert forall|i: int| 0 <= i < keys2.len() implies (#[trigger] keys2[i]).len()
                <= KEY_MAX_SIZE by {
                if i < idx {
                    assert(keys2[i] == old_keys[i]);
                } else if i > idx {
                    assert(keys2[i] == old_keys[i - 1]);
                }
            }
            lemma_key_bytes_bound(keys2, keys2.len() as int);
            lemma_full_internal_median(keys2);
        }
        let median_idx = find_median_key_idx(&keys);
        if median_idx == 0 {
            return Err(Error::ImpossibleSplit);
        }
        proof {
            lemma_internal_halves_fit(keys2, median_idx as int);
            lemma_median_one(keys2, median_idx as int);
        }
        let mut sibling_keys = keys.split_off(median_idx);
        let new_promoted_key = sibling_keys.remove(0);
        let sibling_children = children.split_off(median_idx + 1);
        proof {
            assert(keys_view(keys@) =~= keys2.subrange(0, median_idx as int));
            assert(keys_view(sibling_keys@) =~= keys2.subrange(
                median_idx + 1,
                keys2.len() as int,
            ));
            assert(offsets_view(children@) =~= kids2.subrange(0, median_idx + 1));
            assert(offsets_view(sibling_children@) =~= kids2.subrange(
                median_idx + 1,
                kids2.len() as int,
            ));
            assert(key_of(new_promoted_key@) == keys2[median_idx as int]);
        }
        let left = Node::new(NodeKind::Internal { keys, children, occupied_space: 0 }, None);
        let right = Node::new(
            NodeKind::Internal {
                keys: sibling_keys,
                children: sibling_children,
                occupied_space: 0,
            },
            None,
        );
        proof {
            lemma_ready_split(
                pre,
                mid,
                o,
                h,
                keys2,
                kids2,
                (h - 1) as nat,
                lo,
                hi,
                old_fq,
                median_idx as int,
            );
            lemma_ready_parts(
                pre,
                mid,
                o,
                h,
                keys2.subrange(0, median_idx as int),
                kids2.subrange(0, median_idx + 1),
                (h - 1) as nat,
                lo,
                Some(keys2[median_idx as int]),
                old_fq,
            );
            lemma_ready_parts(
                pre,
                mid,
                o,
                h,
                keys2.subrange(median_idx + 1, keys2.len() as int),
                kids2.subrange(median_idx + 1, kids2.len() as int),
                (h - 1) as nat,
                Some(keys2[median_idx as int]),
                hi,
                old_fq,
            );
            assert(storable(left@));
            assert(storable(right@));
            lemma_encode_fits(left@);
            lemma_encode_fits(right@);
        }
        let first_offset = write_node(pager, &left)?;
        let ghost pa = *pager;
        let written = write_node(pager, &right);
        proof {
            lemma_grew_transitive(pre, mid, pa);
            lemma_grew_transitive(pre, pa, *pager);
        }
        let second_offset = written?;
        fq.add(*node_offset);
        proof {
            reveal(halves_written);
            assert(halves_written(
                pre,
                mid,
                pa,
                *pager,
                o,
                h,
                h,
                lo,
                hi,
                keys2,
                kids2,
                median_idx as int,
                first_offset,
                second_offset,
                old_fq,
                fq@,
            ));
            lemma_insert_two(
                pre,
                mid,
                pa,
                *pager,
                o,
                h,
                lo,
                hi,
                keys2,
                kids2,
                median_idx as int,
                new_promoted_key,
                first_offset,
                second_offset,
                key,
                value,
                old_fq,
                fq@,
            );
            lemma_decode_space(page_at(pa.disk(), first_offset.0 as int));
            lemma_decode_space(page_at(pager.disk(), second_offset.0 as int));
            if accounted_two(
                pre.disk(),
                old_children[idx as int] as int,
                (h - 1) as nat,
                mid.disk(),
                first.0 as int,
                second.0 as int,
                (h - 1) as nat,
                old_fq,
            ) {
                lemma_cover_two(pre, mid, o, h, lo, hi, idx as int, first.0, second.0, old_fq);
                lemma_grew_transitive(mid, pa, *pager);
                assert(page_at(pager.disk(), first_offset.0 as int) == page_at(
                    pa.disk(),
                    first_offset.0 as int,
                ));
                lemma_account_two(
                    pre,
                    mid,
                    *pager,
                    o,
                    h,
                    keys2,
                    kids2,
                    (h - 1) as nat,
                    lo,
                    hi,
                    median_idx + 1,
                    first_offset.0 as int,
                    second_offset.0 as int,
                    old_fq,
                    fq@,
                );
            }
            if fresh_snug(pre, mid, 0) && internal_cut_snug(
                old_keys,
                idx as int,
                m,
                occupied_space as int,
            ) {
                lemma_snug_more(pre, mid, pa, first_offset.0 as int, 0, 0);
                lemma_snug_more(pre, pa, *pager, second_offset.0 as int, 0, 0);
            }
            if even_at(pre.disk(), o, key.len()) && fresh_fit(pre, mid, 0, key.len()) && m.len()
                == key.len() {
                lemma_even_insert(old_keys, idx as int, m, key.len());
                assert(internal_space(keys2) == node_space(
                    (KindView::Internal { keys: keys2, children: kids2 }),
                ));
                lemma_even_internal_halves(keys2, median_idx as int, key.len());
                lemma_even_part(keys2, 0, median_idx as int, key.len());
                lemma_even_part(keys2, median_idx + 1, keys2.len() as int, key.len());
                lemma_fresh_more(pre, mid, pa, first_offset.0 as int, 0, 0, key.len());
                lemma_fresh_more(pre, pa, *pager, second_offset.0 as int, 0, 0, key.len());
            }
        }
        Ok(
            InsertCOWStatus::DidSplit {
                promoted_key: new_promoted_key,
                first: first_offset,
                second: second_offset,
            },
        )
    } else {
        let node = Node::new(NodeKind::Internal { keys, children, occupied_space }, None);
        proof {
            lemma_ready_parts(pre, mid, o, h, keys2, kids2, (h - 1) as nat, lo, hi, old_fq);
            assert(storable(node@));
            lemma_encode_fits(node@);
        }
        let n = write_node(pager, &node)?;
        fq.add(*node_offset);
        proof {
            lemma_grew_transitive(pre, mid, *pager);
            lemma_insert_one(
                pre,
                mid,
                *pager,
                o,
                h,
                lo,
                hi,
                keys2,
                kids2,
                n,
                key,
                value,
                old_fq,
                fq@,
            );
            lemma_decode_space(page_at(pager.disk(), n.0 as int));
            if accounted_two(
                pre.disk(),
                old_children[idx as int] as int,
                (h - 1) as nat,
                mid.disk(),
                first.0 as int,
                second.0 as int,
                (h - 1) as nat,
                old_fq,
            ) {
                lemma_cover_two(pre, mid, o, h, lo, hi, idx as int, first.0, second.0, old_fq);
                lemma_account_node(
                    pre,
                    mid,
                    *pager,
                    o,
                    h,
                    keys2,
                    kids2,
                    (h - 1) as nat,
                    lo,
                    hi,
                    n.0 as int,
                    old_fq,
                    fq@,
                );
            }
            if fresh_snug(pre, mid, 0) {
                lemma_snug_more(pre, mid, *pager, n.0 as int, 0, n.0 as int);
            }
            if even_at(pre.disk(), o, key.len()) && fresh_fit(pre, mid, 0, key.len()) && m.len()
                == key.len() {
                lemma_even_insert(old_keys, idx as int, m, key.len());
                lemma_fresh_more(pre, mid, *pager, n.0 as int, 0, n.0 as int, key.len());
            }
        }
        Ok(InsertCOWStatus::NewOffset(n))
    }
}

impl BTree {
    /// Rewrites the tree of the node `node`, stored at `node_offset`, for
    /// the insertion of `kv`. No page in use is written to: each node on the
    /// way to the leaf is written anew to a page taken for it, and the page
    /// of the old one is put into `fq`.
    #[verifier::rlimit(60)]
    fn insert_cow(
        &mut self,
        fq: &mut FreeQueue,
        node: Node,
        node_offset: &Offset,
        kv: KeyValuePair,
        Ghost(h): Ghost<nat>,
        Ghost(lo): Ghost<Option<Key>>,
        Ghost(hi): Ghost<Option<Key>>,
    ) -> (r: Result<InsertCOWStatus, Error>)
        requires
            old(self).pager.wf(),
            subtree(old(self).pager.disk(), node_offset.0 as int, h, lo, hi),
            node_at(old(self).pager.disk(), node_offset.0 as int) == Some(node@),
            node.node_kind.occupied() == space_at(old(self).pager.disk(), node_offset.0 as int),
            all_live(old(self).pager, node_offset.0 as int, h),
            old(fq)@.len() == 0,
            1 <= key_of(kv.key@).len() <= KEY_MAX_SIZE,
            at_or_above(lo, key_of(kv.key@)),
            below(key_of(kv.key@), hi),
            lookup(old(self).pager.disk(), node_offset.0 as int, h, key_of(kv.key@)) is None,
        ensures
            final(self).height == old(self).height,
            grew(old(self).pager, final(self).pager),
            from_tree(old(self).pager.disk(), node_offset.0 as int, h, final(fq)@),
            promoted_fits(r),
            old(self).pager.curser <= final(self).pager.curser <= old(self).pager.curser + 2 * (h
                + 1) * PAGE_SIZE,
            room(old(self).pager, 2 * (h + 1)) ==> r is Ok,
            r is Err ==> r->Err_0 is UnexpectedError,
            r is Ok ==> final(fq)@.contains(node_offset.0) && taken(old(self).pager, r->Ok_0),
            r is Ok && h == 0 ==> leaves_cut(final(self).pager.disk(), r->Ok_0),
            r is Ok && h > 0 ==> nodes_cut(final(self).pager.disk(), r->Ok_0),
            r is Ok ==> reclaimed(
                old(self).pager.disk(),
                node_offset.0 as int,
                h,
                final(self).pager.disk(),
                final(fq)@,
                r->Ok_0,
            ),
            r is Ok ==> grown(
                r->Ok_0,
                promoted(old(self).pager.disk(), node_offset.0 as int, h, key_of(kv.key@)),
            ),
            r is Ok && snug_tree(old(self).pager.disk(), node_offset.0 as int, h) && insert_snug(
                old(self).pager.disk(),
                node_offset.0 as int,
                h,
                key_of(kv.key@),
            ) ==> kept_snug(old(self).pager, final(self).pager, node_offset.0 as int, r->Ok_0),
            r is Ok && leaf_roomy(old(self).pager.disk(), node_offset.0 as int, h, key_of(kv.key@))
                ==> r->Ok_0 is NewOffset && space_at(
                final(self).pager.disk(),
                leaf_for(final(self).pager.disk(), r->Ok_0->NewOffset_0.0 as int, h, key_of(kv.key@)),
            ) == space_at(
                old(self).pager.disk(),
                leaf_for(old(self).pager.disk(), node_offset.0 as int, h, key_of(kv.key@)),
            ) + 1 + key_of(kv.key@).len() + VALUE_SIZE,
            r is Ok && h == 0 && r->Ok_0 is NewOffset ==> space_at(
                final(self).pager.disk(),
                r->Ok_0->NewOffset_0.0 as int,
            ) == space_at(old(self).pager.disk(), node_offset.0 as int) + 1 + key_of(
                kv.key@,
            ).len() + VALUE_SIZE,
            r is Ok && filled(
                old(self).pager.disk(),
                node_offset.0 as int,
                h,
                key_of(kv.key@).len(),
            ) ==> kept_full(
                old(self).pager,
                final(self).pager,
                node_offset.0 as int,
                key_of(kv.key@).len(),
                r->Ok_0,
            ),
            r is Ok ==> inserted(
                old(self).pager,
                final(self).pager,
                node_offset.0 as int,
                h,
                lo,
                hi,
                key_of(kv.key@),
                kv.value,
                final(fq)@,
                r->Ok_0,
            ),
        decreases h,
    {
        let ghost pre = self.pager;
        let ghost o = node_offset.0 as int;
        let ghost key = key_of(kv.key@);
        let ghost value = kv.value;
        proof {
            assert(grew(pre, pre));
            assert(from_tree(pre.disk(), o, h, fq@));
        }
        let parent_offset = node.parent_offset;
        match node.node_kind {
            NodeKind::Leaf { next, previous, key_value_pairs, occupied_space } => {
                let leaf = Node::new(
                    NodeKind::Leaf { next, previous, key_value_pairs, occupied_space },
                    parent_offset,
                );
                proof {
                    assert(in_subtree(pre.disk(), o, h, o));
                }
                insert_leaf(&mut self.pager, fq, leaf, node_offset, kv, Ghost(lo), Ghost(hi))
            },
            NodeKind::Internal { keys, children, occupied_space } => {
                let ghost all_keys = keys_view(keys@);
                let ghost kids = offsets_view(children@);
                proof {
                    lemma_subtree_internal(pre.disk(), o, h, lo, hi);
                    lemma_route_bounds(all_keys, key, lo, hi);
                }
                let idx = find_child(&keys, kv.key.as_str());
                if idx >= children.len() {
                    return Err(Error::InternalNodeNoChild);
                }
                let child_offset = children[idx];
                let ghost clo = child_lo(all_keys, lo, idx as int);
                let ghost chi = child_hi(all_keys, hi, idx as int);
                proof {
                    assert(kids[idx as int] == child_offset.0);
                    assert(subtree(pre.disk(), child_offset.0 as int, (h - 1) as nat, clo, chi));
                    assert(all_live(pre, child_offset.0 as int, (h - 1) as nat)) by {
                        assert forall|p: int| #[trigger]
                            in_subtree(
                                pre.disk(),
                                child_offset.0 as int,
                                (h - 1) as nat,
                                p,
                            ) implies live(pre, p) by {
                            assert(in_subtree(pre.disk(), o, h, p));
                        }
                    }
                    assert(lookup(pre.disk(), o, h, key) == lookup_under(
                        pre.disk(),
                        all_keys,
                        kids,
                        (h - 1) as nat,
                        key,
                    ));
                    if snug_tree(pre.disk(), o, h) {
                        lemma_snug_child(pre.disk(), o, h, lo, hi, idx as int);
                    }
                    if filled(pre.disk(), o, h, key.len()) {
                        assert(in_subtree(pre.disk(), o, h, o));
                        assert(even_at(pre.disk(), o, key.len()));
                        assert(child_offset.0 != o) by {
                            assert(in_subtree(
                                pre.disk(),
                                child_offset.0 as int,
                                (h - 1) as nat,
                                child_offset.0 as int,
                            ));
                            assert(!in_subtree(
                                pre.disk(),
                                kids[idx as int] as int,
                                (h - 1) as nat,
                                o,
                            ));
                        }
                        assert(in_subtree(pre.disk(), o, h, child_offset.0 as int)) by {
                            assert(in_subtree(
                                pre.disk(),
                                child_offset.0 as int,
                                (h - 1) as nat,
                                child_offset.0 as int,
                            ));
                        }
                        assert(filled(pre.disk(), child_offset.0 as int, (h - 1) as nat, key.len())) by {
                            assert forall|p: int| #[trigger]
                                in_subtree(
                                    pre.disk(),
                                    child_offset.0 as int,
                                    (h - 1) as nat,
                                    p,
                                ) implies even_at(pre.disk(), p, key.len()) && (p
                                != child_offset.0 ==> snug_at(pre.disk(), p)) by {
                                assert(in_subtree(pre.disk(), o, h, p));
                            }
                        }
                    }
                }
                let child = self.read_node(&child_offset)?;
                let status = self.insert_cow(
                    fq,
                    child,
                    &child_offset,
                    kv,
                    Ghost((h - 1) as nat),
                    Ghost(clo),
                    Ghost(chi),
                );
                match status {
                    Err(e) => {
                        proof {
                            lemma_from_tree_up(pre.disk(), o, h, lo, hi, idx as int, fq@);
                        }
                        Err(e)
                    },
                    Ok(InsertCOWStatus::NewOffset(new_child)) => insert_rewritten(
                        &mut self.pager,
                        fq,
                        keys,
                        children,
                        occupied_space,
                        node_offset,
                        idx,
                        new_child,
                        Ghost(pre),
                        Ghost(h),
                        Ghost(lo),
                        Ghost(hi),
                        Ghost(key),
                        Ghost(value),
                    ),
                    Ok(InsertCOWStatus::DidSplit { promoted_key, first, second }) => {
                        proof {
                            reveal(split_below);
                        }
                        insert_split_child(
                            &mut self.pager,
                            fq,
                            keys,
                            children,
                            occupied_space,
                            node_offset,
                            idx,
                            promoted_key,
                            first,
                            second,
                            Ghost(pre),
                            Ghost(h),
                            Ghost(lo),
                            Ghost(hi),
                            Ghost(key),
                            Ghost(value),
                        )
                    },
                }
            },
        }
    }
}

/// The two trees that an insertion gave where it split the root, with the
/// promoted key between them, are ready to stand below a new root.
#[verifier::rlimit(60)]
pub proof fn lemma_root_split_ready(
    pre: Pager,
    mid: Pager,
    o: int,
    h: nat,
    promoted_key: String,
    first: Offset,
    second: Offset,
    key: Key,
    value: u64,
    fq: Seq<usize>,
    keys: Seq<Key>,
    kids: Seq<usize>,
)
    requires
        inserted(
            pre,
            mid,
            o,
            h,
            None,
            None,
            key,
            value,
            fq,
            InsertCOWStatus::DidSplit { promoted_key, first, second },
        ),
        keys.len() == 1,
        keys[0] == key_of(promoted_key@),
        kids.len() == 2,
        kids[0] == first.0,
        kids[1] == second.0,
    ensures
        ready(pre, mid, o, h, keys, kids, h, None, None, fq),
        forall|k: Key| #[trigger]
            lookup_under(mid.disk(), keys, kids, h, k) == if k == key {
                Some(value)
            } else {
                lookup(pre.disk(), o, h, k)
            },
{
    reveal(inserted);
    reveal(ready);
    let m = key_of(promoted_key@);
    assert forall|k: Key| #[trigger]
        lookup_under(mid.disk(), keys, kids, h, k) == if k == key {
            Some(value)
        } else {
            lookup(pre.disk(), o, h, k)
        } by {
        lemma_route_is(keys, k, if key_lt(k, m) {
            0
        } else {
            1
        });
        assert(split_lookup(mid.disk(), m, first.0 as int, second.0 as int, h, k) == if k
            == key {
            Some(value)
        } else {
            lookup(pre.disk(), o, h, k)
        });
    }
}

/// What `inserted` says of one tree that an insertion gave.
pub proof fn lemma_inserted_one(
    pre: Pager,
    post: Pager,
    o: int,
    h: nat,
    lo: Option<Key>,
    hi: Option<Key>,
    key: Key,
    value: u64,
    fq: Seq<usize>,
    n: Offset,
)
    requires
        inserted(pre, post, o, h, lo, hi, key, value, fq, InsertCOWStatus::NewOffset(n)),
    ensures
        replaced(pre, post, o, h, n.0 as int, h, lo, hi, fq),
        forall|k: Key| #[trigger]
            lookup(post.disk(), n.0 as int, h, k) == if k == key {
                Some(value)
            } else {
                lookup(pre.disk(), o, h, k)
            },
{
    reveal(inserted);
}

/// A map that gives `key` the value `value` and every other key what
/// `before` gives it is `before` with `value` put in for `key`.
#[verifier::rlimit(60)]
pub proof fn lemma_view_inserted(before: BTree, after: BTree, key: Seq<char>, value: u64)
    requires
        forall|k: Key| #[trigger]
            lookup(after.pager.disk(), after.root(), after.height@, k) == if k == key_of(key) {
                Some(value)
            } else {
                lookup(before.pager.disk(), before.root(), before.height@, k)
            },
    ensures
        after@ == before@.insert(key, value),
{
    assert forall|s: Seq<char>| #[trigger] after@.contains_key(s) <==> before@.insert(
        key,
        value,
    ).contains_key(s) by {
        if key_of(s) == key_of(key) {
            lemma_key_of_injective(s, key);
        }
        assert(lookup(after.pager.disk(), after.root(), after.height@, key_of(s)) == if key_of(s)
            == key_of(key) {
            Some(value)
        } else {
            lookup(before.pager.disk(), before.root(), before.height@, key_of(s))
        });
    }
    assert forall|s: Seq<char>| #[trigger] after@.contains_key(s) implies after@[s]
        == before@.insert(key, value)[s] by {
        if key_of(s) == key_of(key) {
            lemma_key_of_injective(s, key);
        }
        assert(lookup(after.pager.disk(), after.root(), after.height@, key_of(s)) == if key_of(s)
            == key_of(key) {
            Some(value)
        } else {
            lookup(before.pager.disk(), before.root(), before.height@, key_of(s))
        });
    }
    assert(after@ =~= before@.insert(key, value));
}

impl BTree {
    /// Writes a new root over the two trees that an insertion gave where it
    /// split the root.
    #[verifier::rlimit(60)]
    fn grow_root(
        &mut self,
        promoted_key: String,
        first: Offset,
        second: Offset,
        Ghost(pre): Ghost<Pager>,
        Ghost(h): Ghost<nat>,
        Ghost(key): Ghost<Key>,
        Ghost(value): Ghost<u64>,
        Ghost(fq): Ghost<Seq<usize>>,
        ) -> (r: Result<Offset, Error>)
        requires
            old(self).pager.wf(),
            sound(pre, h),
            grew(pre, old(self).pager),
            from_tree(pre.disk(), root_of(pre), h, fq),
            inserted(
                pre,
                old(self).pager,
                root_of(pre),
                h,
                None,
                None,
                key,
                value,
                fq,
                InsertCOWStatus::DidSplit { promoted_key, first, second },
            ),
        ensures
            final(self).height == old(self).height,
            grew(pre, final(self).pager),
            r is Err ==> final(self).pager == old(self).pager,
            1 <= key_of(promoted_key@).len() <= KEY_MAX_SIZE && room(old(self).pager, 1) ==> r is Ok,
            old(self).pager.curser <= final(self).pager.curser <= old(self).pager.curser
                + PAGE_SIZE,
            1 <= key_of(promoted_key@).len() <= KEY_MAX_SIZE && r is Err ==> r->Err_0
                is UnexpectedError,
            r is Ok && fresh_fit(pre, old(self).pager, 0, key.len()) && key_of(promoted_key@).len()
                == key.len() ==> fresh_fit(pre, final(self).pager, r->Ok_0.0 as int, key.len()),
            r is Ok && fresh_snug(pre, old(self).pager, 0) ==> fresh_snug(
                pre,
                final(self).pager,
                r->Ok_0.0 as int,
            ),
            r is Ok && fq.contains(root_of(pre) as usize) && accounted_two(
                pre.disk(),
                root_of(pre),
                h,
                old(self).pager.disk(),
                first.0 as int,
                second.0 as int,
                h,
                fq,
            ) ==> accounted(
                pre.disk(),
                root_of(pre),
                h,
                final(self).pager.disk(),
                r->Ok_0.0 as int,
                h + 1,
                fq,
            ),
            r is Ok ==> replaced(
                pre,
                final(self).pager,
                root_of(pre),
                h,
                r->Ok_0.0 as int,
                h + 1,
                None,
                None,
                fq,
            ) && !fq.contains(r->Ok_0.0) && r->Ok_0.0 != root_of(pre) && forall|k: Key| #[trigger]
                lookup(final(self).pager.disk(), r->Ok_0.0 as int, h + 1, k) == if k == key {
                    Some(value)
                } else {
                    lookup(pre.disk(), root_of(pre), h, k)
                },
    {
        let ghost mid = self.pager;
        let ghost o = root_of(pre);
        let mut keys: Vec<String> = Vec::new();
        keys.push(promoted_key);
        let mut children: Vec<Offset> = Vec::new();
        children.push(first);
        children.push(second);
        let ghost root_keys = keys_view(keys@);
        let ghost root_kids = offsets_view(children@);
        let new_root_node = Node::new(
            NodeKind::Internal { keys, children, occupied_space: 0 },
            None,
        );
        proof {
            lemma_root_split_ready(
                pre,
                mid,
                o,
                h,
                promoted_key,
                first,
                second,
                key,
                value,
                fq,
                root_keys,
                root_kids,
            );
            lemma_ready_parts(pre, mid, o, h, root_keys, root_kids, h, None, None, fq);
            assert(storable(new_root_node@));
            if 1 <= key_of(promoted_key@).len() <= KEY_MAX_SIZE {
                lemma_string_key_storable(promoted_key@);
                assert(root_keys =~= seq![key_of(promoted_key@)]);
                assert(root_keys.drop_last() =~= Seq::<Key>::empty());
                assert(keys_space(root_keys) == 1 + key_of(promoted_key@).len()) by {
                    assert(keys_space(root_keys.drop_last()) == 0);
                }
                assert(storable(new_root_node@));
                lemma_encode_fits(new_root_node@);
            }
        }
        let n = write_node(&mut self.pager, &new_root_node)?;
        proof {
            lemma_grew_transitive(pre, mid, self.pager);
            assert(in_subtree(pre.disk(), o, h, o));
            assert forall|x: usize| fq.contains(x) implies live(pre, x as int) by {
                let i = choose|i: int| 0 <= i < fq.len() && fq[i] == x;
                assert(in_subtree(pre.disk(), o, h, fq[i] as int));
            }
            lemma_assemble(
                pre,
                mid,
                self.pager,
                o,
                h,
                n.0 as int,
                h + 1,
                root_keys,
                root_kids,
                None,
                None,
                fq,
                fq,
            );
            assert(in_subtree(self.pager.disk(), n.0 as int, h + 1, n.0 as int));
            if fresh_fit(pre, mid, 0, key.len()) && key_of(promoted_key@).len() == key.len() {
                lemma_fresh_more(pre, mid, self.pager, n.0 as int, 0, n.0 as int, key.len());
            }
            if fresh_snug(pre, mid, 0) {
                lemma_snug_more(pre, mid, self.pager, n.0 as int, 0, n.0 as int);
            }
            if fq.contains(o as usize) && accounted_two(
                pre.disk(),
                o,
                h,
                mid.disk(),
                first.0 as int,
                second.0 as int,
                h,
                fq,
            ) {
                assert(covered(pre.disk(), o, h, mid.disk(), root_kids, h, fq)) by {
                    assert forall|p: int| #[trigger] in_subtree(pre.disk(), o, h, p) implies p == o
                        || fq.contains(p as usize) || in_any(mid.disk(), root_kids, h, p) by {
                        if in_subtree(mid.disk(), first.0 as int, h, p) {
                            assert(in_subtree(mid.disk(), root_kids[0] as int, h, p));
                        }
                        if in_subtree(mid.disk(), second.0 as int, h, p) {
                            assert(in_subtree(mid.disk(), root_kids[1] as int, h, p));
                        }
                    }
                }
                lemma_account_node(
                    pre,
                    mid,
                    self.pager,
                    o,
                    h,
                    root_keys,
                    root_kids,
                    h,
                    None,
                    None,
                    n.0 as int,
                    fq,
                    fq,
                );
            }
        }
        Ok(n)
    }

    /// Puts `key` with `value` into the index. The key must not be in the
    /// index yet. A key of more than 255 bytes is refused with
    /// `KeyOverflowError`, and a key of no byte, which no node could be read
    /// back with, with `KeyParseError`, before anything is written. Any other
    /// key is put in, unless the storage had to grow beyond the offsets that
    /// the machine can hold, which fails with `UnexpectedError`: no more than
    /// two pages are taken for each level of the tree, and one for a new
    /// root. Success leaves a sound index that holds the key with its value
    /// and is otherwise as it was; failure leaves a sound index that holds
    /// what it held. The tree grows by one level exactly where `promoted`
    /// names a key for the root; where the leaf of the key has room for the
    /// pair, no node is cut in two, and the leaf then occupies as much more as
    /// the pair takes. Every page of the old tree that is no page of the new
    /// one is in the free list afterwards. An index that is snug stays snug
    /// where `insert_snug` holds, and an index whose keys all have as many
    /// bytes as `key`, and whose nodes but the root each occupy the space that
    /// a node must, stays such an index.
    #[verifier::rlimit(100)]
    pub fn insert(&mut self, key: String, value: u64) -> (r: Result<(), Error>)
        requires
            old(self).valid(),
            !old(self)@.contains_key(key@),
        ensures
            key_of(key@).len() > KEY_MAX_SIZE ==> r is Err && r->Err_0 is KeyOverflowError
                && final(self).pager == old(self).pager && final(self).height == old(self).height,
            key_of(key@).len() == 0 ==> r is Err && r->Err_0 is KeyParseError && final(self).pager
                == old(self).pager && final(self).height == old(self).height,
            1 <= key_of(key@).len() <= KEY_MAX_SIZE && room(
                old(self).pager,
                2 * old(self).height@ + 3,
            ) ==> r is Ok,
            1 <= key_of(key@).len() <= KEY_MAX_SIZE && r is Err ==> r->Err_0 is UnexpectedError,
            r is Err ==> final(self).valid() && final(self)@ == old(self)@,
            r is Ok ==> final(self).valid() && final(self)@ == old(self)@.insert(key@, value),
            r is Ok ==> durable(final(self).pager),
            old(self).height@ <= final(self).height@ <= old(self).height@ + 1,
            r is Ok ==> (final(self).height@ == old(self).height@ <==> promoted(
                old(self).pager.disk(),
                old(self).root(),
                old(self).height@,
                key_of(key@),
            ) is None),
            old(self).pager.curser <= final(self).pager.curser <= old(self).pager.curser + (2
                * old(self).height@ + 3) * PAGE_SIZE,
            r is Ok && old(self).height@ == 0 && final(self).height@ == 0 ==> space_at(
                final(self).pager.disk(),
                final(self).root(),
            ) == space_at(old(self).pager.disk(), old(self).root()) + 1 + key_of(key@).len()
                + VALUE_SIZE,
            r is Ok && leaf_roomy(
                old(self).pager.disk(),
                old(self).root(),
                old(self).height@,
                key_of(key@),
            ) ==> final(self).height@ == old(self).height@ && space_at(
                final(self).pager.disk(),
                leaf_for(
                    final(self).pager.disk(),
                    final(self).root(),
                    final(self).height@,
                    key_of(key@),
                ),
            ) == space_at(
                old(self).pager.disk(),
                leaf_for(
                    old(self).pager.disk(),
                    old(self).root(),
                    old(self).height@,
                    key_of(key@),
                ),
            ) + 1 + key_of(key@).len() + VALUE_SIZE,
            rest_kept(old(self).pager, old(self).height@, final(self).pager, final(self).height@),
            r is Ok ==> final(self).pager.free_list()->Some_0.contains(old(self).root()),
            r is Ok ==> forall|p: int| #[trigger]
                in_subtree(old(self).pager.disk(), old(self).root(), old(self).height@, p)
                    && !in_subtree(
                    final(self).pager.disk(),
                    final(self).root(),
                    final(self).height@,
                    p,
                ) ==> final(self).pager.free_list()->Some_0.contains(p),
            r is Ok && well_filled(*old(self), key_of(key@).len()) ==> well_filled(
                *final(self),
                key_of(key@).len(),
            ),
            r is Ok && all_snug(*old(self)) && insert_snug(
                old(self).pager.disk(),
                old(self).root(),
                old(self).height@,
                key_of(key@),
            ) ==> all_snug(*final(self)),
            r is Err && all_snug(*old(self)) ==> all_snug(*final(self)),
            forall|len: nat|
                r is Err && #[trigger] well_filled(*old(self), len) ==> well_filled(*final(self), len),
    {
        let ghost before = *self;
        let ghost pre = self.pager;
        let ghost h = self.height@;
        let ghost k = key_of(key@);
        proof {
            lemma_view_same(before, *self);
            assert(grew(pre, pre));
            lemma_rest_grew(pre, h, pre);
            lemma_filled_grew(pre, pre, h);
            lemma_snug_grew(pre, pre, h);
        }
        if key.as_str().as_bytes().len() > KEY_MAX_SIZE {
            return Err(Error::KeyOverflowError);
        }
        if key.as_str().as_bytes().len() == 0 {
            return Err(Error::KeyParseError);
        }
        let mut fq = FreeQueue::new();
        let root_offset = self.root_offset()?;
        let ghost o = root_offset.0 as int;
        let root = self.read_node(&root_offset)?;
        let status = self.insert_cow(
            &mut fq,
            root,
            &root_offset,
            KeyValuePair { key, value },
            Ghost(h),
            Ghost(None),
            Ghost(None),
        );
        let ghost mid = self.pager;
        proof {
            lemma_sound_grew(pre, mid, h);
            lemma_view_same(before, *self);
            lemma_rest_grew(pre, h, mid);
            lemma_filled_grew(pre, mid, h);
            lemma_snug_grew(pre, mid, h);
        }
        let status = status?;
        let ghost queue0 = fq@;
        let new_root = match status {
            InsertCOWStatus::NewOffset(n) => {
                proof {
                    lemma_inserted_one(pre, mid, o, h, None, None, k, value, queue0, n);
                }
                n
            },
            InsertCOWStatus::DidSplit { promoted_key, first, second } => {
                let grown = self.grow_root(
                    promoted_key,
                    first,
                    second,
                    Ghost(pre),
                    Ghost(h),
                    Ghost(k),
                    Ghost(value),
                    Ghost(queue0),
                );
                proof {
                    lemma_sound_grew(pre, self.pager, h);
                    lemma_view_same(before, *self);
                    lemma_rest_grew(pre, h, self.pager);
                    lemma_filled_grew(pre, self.pager, h);
                    lemma_snug_grew(pre, self.pager, h);
                }
                grown?
            },
        };
        let ghost h2: nat = if status is DidSplit {
            h + 1
        } else {
            h
        };
        let ghost p1 = self.pager;
        fq.add(root_offset);
        let ghost queue1 = fq@;
        proof {
            lemma_from_tree_add(pre.disk(), o, h, queue0, fq@);
            assert forall|x: usize| fq@.contains(x) implies live(p1, x as int) by {
                let i = choose|i: int| 0 <= i < fq@.len() && fq@[i] == x;
                assert(in_subtree(pre.disk(), o, h, fq@[i] as int));
                assert(live(pre, x as int));
            }
            lemma_settled_more(pre, p1, o, h, new_root.0 as int, h2, queue0, fq@);
        }
        let done = self.commit(fq, new_root, Ghost(h2));
        proof {
            lemma_view_inserted(before, *self, key@, value);
            lemma_rest_kept(pre, h, p1, self.pager, new_root, h2, queue0, queue1);
            assert(page_at(self.pager.disk(), new_root.0 as int) == page_at(
                p1.disk(),
                new_root.0 as int,
            )) by {
                assert(in_subtree(p1.disk(), new_root.0 as int, h2, new_root.0 as int));
                assert(live(p1, new_root.0 as int));
                assert(!queue1.contains(new_root.0));
            }
            if status is NewOffset {
                lemma_inserted_one(pre, mid, o, h, None, None, k, value, queue0, new_root);
                assert forall|p: int| #[trigger]
                    in_subtree(p1.disk(), new_root.0 as int, h, p) implies is_page(
                    self.pager.disk(),
                    p,
                ) && page_at(self.pager.disk(), p) == page_at(p1.disk(), p) by {
                    assert(live(p1, p) && !queue1.contains(p as usize));
                }
                lemma_leaf_for_frame(
                    p1.disk(),
                    self.pager.disk(),
                    new_root.0 as int,
                    h,
                    None,
                    None,
                    k,
                );
            }
            assert(accounted(pre.disk(), o, h, p1.disk(), new_root.0 as int, h2, queue1));
            lemma_reclaimed(pre, p1, self.pager, o, h, new_root.0 as int, h2, queue1);
            if snug_tree(pre.disk(), o, h) && insert_snug(pre.disk(), o, h, k) {
                lemma_snug_after(pre, p1, self.pager, o, h, new_root.0 as int, h2, queue1);
            }
            if filled(pre.disk(), o, h, k.len()) {
                lemma_filled_after(
                    pre,
                    p1,
                    self.pager,
                    o,
                    h,
                    new_root.0 as int,
                    h2,
                    queue1,
                    k.len(),
                );
            }
        }
        done
    }
}

} // verus!
