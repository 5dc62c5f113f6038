//! What holds of the index whatever is done with it: laws of its
//! operations, and what every sound index has.

use crate::btree::{BTree, durable, lemma_view_same, names_root, opened, root_of, sound};
use crate::key::{Key, key_lt, keys_sorted};
use crate::node::{KindView, lemma_decode_space, node_space, word_at};
use crate::occupancy::{all_snug, snug_at, snug_tree, well_filled};
use crate::page_layout::{PAGE_SIZE, UNDERFLOW_SPACE};
use crate::pager::{
    ascending_ints, Disk, free_chain, is_page, lemma_chain_links, lemma_chain_props, page_at, Pager,
    pages_of,
};
use crate::tree::{
    at_or_above, below, child_hi, child_lo, in_subtree, live, lookup, node_at, pairs_sorted,
    space_at, subtree,
};
use vstd::prelude::*;

verus! {

/// What a map gives to a key: its value, or nothing. This is what a search
/// gives back.
pub open spec fn found(m: Map<Seq<char>, u64>, key: Seq<char>) -> Option<u64> {
    if m.contains_key(key) {
        Some(m[key])
    } else {
        None
    }
}

/// The map after each of `pairs` was put in, the first of them first. This
/// is what the index holds after as many insertions.
pub open spec fn put_all(m: Map<Seq<char>, u64>, pairs: Seq<(Seq<char>, u64)>) -> Map<
    Seq<char>,
    u64,
>
    decreases pairs.len(),
{
    if pairs.len() == 0 {
        m
    } else {
        put_all(m, pairs.drop_last()).insert(pairs.last().0, pairs.last().1)
    }
}

/// The map after each of `keys` was taken out. This is what the index holds
/// after as many deletions.
pub open spec fn take_all(m: Map<Seq<char>, u64>, keys: Seq<Seq<char>>) -> Map<Seq<char>, u64>
    decreases keys.len(),
{
    if keys.len() == 0 {
        m
    } else {
        take_all(m, keys.drop_last()).remove(keys.last())
    }
}

/// Whether no two of `pairs` have the same key.
pub open spec fn distinct_keys(pairs: Seq<(Seq<char>, u64)>) -> bool {
    forall|i: int, j: int|
        0 <= i < j < pairs.len() ==> (#[trigger] pairs[i]).0 != (#[trigger] pairs[j]).0
}

/// After pairs with distinct keys were put in, in whatever order they come,
/// a search for the key of any of them finds its value.
pub proof fn law_round_trip(m: Map<Seq<char>, u64>, pairs: Seq<(Seq<char>, u64)>, i: int)
    requires
        distinct_keys(pairs),
        0 <= i < pairs.len(),
    ensures
        found(put_all(m, pairs), pairs[i].0) == Some(pairs[i].1),
    decreases pairs.len(),
{
    if i < pairs.len() - 1 {
        let front = pairs.drop_last();
        assert(distinct_keys(front)) by {
            assert forall|a: int, b: int| 0 <= a < b < front.len() implies (#[trigger] front[a]).0
                != (#[trigger] front[b]).0 by {
                assert(front[a] == pairs[a] && front[b] == pairs[b]);
            }
        }
        law_round_trip(m, front, i);
        assert(front[i] == pairs[i]);
        assert(pairs[i].0 != pairs[pairs.len() - 1].0);
    }
}

/// Taking keys out leaves none of them, and leaves every other key what it
/// had.
pub proof fn lemma_take_all(m: Map<Seq<char>, u64>, keys: Seq<Seq<char>>, k: Seq<char>)
    ensures
        keys.contains(k) ==> found(take_all(m, keys), k) is None,
        !keys.contains(k) ==> found(take_all(m, keys), k) == found(m, k),
    decreases keys.len(),
{
    if keys.len() > 0 {
        let front = keys.drop_last();
        lemma_take_all(m, front, k);
        if keys.contains(k) && k != keys.last() {
            let i = choose|i: int| 0 <= i < keys.len() && keys[i] == k;
            assert(front[i] == k);
        }
        if front.contains(k) {
            let i = choose|i: int| 0 <= i < front.len() && front[i] == k;
            assert(keys[i] == k);
        }
        if k == keys.last() {
            assert(keys[keys.len() - 1] == k);
        }
    }
}

/// After pairs with distinct keys were put in and some of their keys were
/// taken out again, a search for a key that was taken out finds nothing, and
/// a search for any other of the keys finds its value.
pub proof fn law_deletion_exact(
    m: Map<Seq<char>, u64>,
    pairs: Seq<(Seq<char>, u64)>,
    gone: Seq<Seq<char>>,
    i: int,
)
    requires
        distinct_keys(pairs),
        0 <= i < pairs.len(),
    ensures
        gone.contains(pairs[i].0) ==> found(take_all(put_all(m, pairs), gone), pairs[i].0) is None,
        !gone.contains(pairs[i].0) ==> found(take_all(put_all(m, pairs), gone), pairs[i].0)
            == Some(pairs[i].1),
{
    law_round_trip(m, pairs, i);
    lemma_take_all(put_all(m, pairs), gone, pairs[i].0);
}

/// No page of the tree of a sound index is in the free list.
pub proof fn law_cow_integrity(tree: BTree, p: int)
    requires
        tree.valid(),
        in_subtree(tree.pager.disk(), tree.root(), tree.height@, p),
    ensures
        !tree.pager.free_list()->Some_0.contains(p),
        is_page(tree.pager.disk(), p),
{
    assert(live(tree.pager, p));
}

/// The free list of a sound index is there: following it from its head
/// ends. Its offsets are in ascending order, and each is where a page of
/// the storage other than page zero starts.
pub proof fn law_free_list_ordered(tree: BTree)
    requires
        tree.valid(),
    ensures
        tree.pager.free_list() is Some,
        ascending_ints(tree.pager.free_list()->Some_0),
        forall|i: int|
            0 <= i < tree.pager.free_list()->Some_0.len() ==> is_page(
                tree.pager.disk(),
                #[trigger] tree.pager.free_list()->Some_0[i],
            ),
{
    lemma_chain_props(tree.pager.disk(), tree.pager.head());
}

/// A page that is taken where the free list holds one is the first of the
/// list, the page with the least offset; the free list is then the rest of
/// it, in ascending order, and does not hold the page.
pub proof fn law_take_least(pre: Pager, post: Pager, o: int, bytes: Seq<u8>)
    requires
        pre.wf(),
        post.wf(),
        crate::pager::took_page(pre, post, o, bytes),
        pre.free_list()->Some_0.len() > 0,
    ensures
        o == pre.free_list()->Some_0[0],
        forall|i: int| 0 <= i < pre.free_list()->Some_0.len() ==> o <= pre.free_list()->Some_0[i],
        post.free_list() == Some(pre.free_list()->Some_0.drop_first()),
        ascending_ints(post.free_list()->Some_0),
        !post.free_list()->Some_0.contains(o),
{
    let free = pre.free_list()->Some_0;
    lemma_chain_props(pre.disk(), pre.head());
    lemma_chain_props(post.disk(), post.head());
    let rest = free.drop_first();
    if rest.contains(o) {
        let i = choose|i: int| 0 <= i < rest.len() && rest[i] == o;
        assert(free[0] < free[i + 1]);
    }
}

/// Whether the page at `p` is reached from the node stored at `o` in `d`
/// steps, each from a node to one of its children.
pub open spec fn reaches(disk: Disk, o: int, d: nat, p: int) -> bool
    decreases d,
{
    if d == 0 {
        p == o
    } else {
        match node_at(disk, o) {
            Some(node) => match node.kind {
                KindView::Internal { keys, children } => exists|i: int|
                    0 <= i < children.len() && reaches(
                        disk,
                        #[trigger] children[i] as int,
                        (d - 1) as nat,
                        p,
                    ),
                KindView::Leaf { .. } => false,
            },
            None => false,
        }
    }
}

/// Whether `k` is the key of a pair in a leaf of the tree of height `h`
/// stored at `o`.
pub open spec fn holds_key(disk: Disk, o: int, h: nat, k: Key) -> bool
    decreases h,
{
    match node_at(disk, o) {
        Some(node) => match node.kind {
            KindView::Internal { keys, children } => h > 0 && exists|i: int|
                0 <= i < children.len() && holds_key(
                    disk,
                    #[trigger] children[i] as int,
                    (h - 1) as nat,
                    k,
                ),
            KindView::Leaf { next, previous, pairs } => exists|i: int|
                0 <= i < pairs.len() && (#[trigger] pairs[i]).0 == k,
        },
        None => false,
    }
}

/// What is reached from the root of a sound tree in `d` steps is the root
/// of a sound tree, `d` less in height, within some bounds; it is a page of
/// the tree; and it is a leaf exactly where `d` is the height of the tree.
pub proof fn lemma_reached(
    disk: Disk,
    o: int,
    h: nat,
    lo: Option<Key>,
    hi: Option<Key>,
    d: nat,
    p: int,
)
    requires
        subtree(disk, o, h, lo, hi),
        reaches(disk, o, d, p),
    ensures
        d <= h,
        in_subtree(disk, o, h, p),
        exists|plo: Option<Key>, phi: Option<Key>| #[trigger]
            subtree(disk, p, (h - d) as nat, plo, phi),
        node_at(disk, p) is Some,
        node_at(disk, p)->Some_0.kind is Leaf <==> d == h,
    decreases d,
{
    if d == 0 {
        assert(subtree(disk, p, (h - d) as nat, lo, hi));
    } else {
        let node = node_at(disk, o)->Some_0;
        match node.kind {
            KindView::Internal { keys, children } => {
                let i = choose|i: int|
                    0 <= i < children.len() && reaches(
                        disk,
                        #[trigger] children[i] as int,
                        (d - 1) as nat,
                        p,
                    );
                lemma_reached(
                    disk,
                    children[i] as int,
                    (h - 1) as nat,
                    child_lo(keys, lo, i),
                    child_hi(keys, hi, i),
                    (d - 1) as nat,
                    p,
                );
                let (plo, phi) = choose|plo: Option<Key>, phi: Option<Key>| #[trigger]
                    subtree(disk, p, ((h - 1) - (d - 1)) as nat, plo, phi);
                assert(subtree(disk, p, (h - d) as nat, plo, phi));
            },
            KindView::Leaf { .. } => {},
        }
    }
}

/// Every leaf of a sound index lies at the same depth: a leaf that is
/// reached from the root in `d` steps is reached in as many steps as the
/// tree is high.
pub proof fn law_balanced_depth(tree: BTree, d: nat, p: int)
    requires
        tree.valid(),
        reaches(tree.pager.disk(), tree.root(), d, p),
        node_at(tree.pager.disk(), p) is Some,
        node_at(tree.pager.disk(), p)->Some_0.kind is Leaf,
    ensures
        d == tree.height@,
{
    lemma_reached(tree.pager.disk(), tree.root(), tree.height@, None, None, d, p);
}

/// Every node but the root occupies the space that a node must in an
/// index that is snug. An index that holds nothing is snug. `insert` keeps an
/// index snug where `insert_snug` holds: where every node that the insertion
/// cuts in two is cut into halves that each occupy that space. `delete`
/// keeps it snug where `delete_snug` holds: where the nodes that it writes
/// for the nodes on the way to the leaf, and the two between which it shares
/// entries out anew, each occupy that space. A cut by the bytes of the keys
/// can leave a half with less where the keys differ much in length.
pub proof fn law_underflow_kept(tree: BTree, p: int)
    requires
        tree.valid(),
        all_snug(tree),
        in_subtree(tree.pager.disk(), tree.root(), tree.height@, p),
        p != tree.root(),
    ensures
        node_at(tree.pager.disk(), p) is Some,
        space_at(tree.pager.disk(), p) >= UNDERFLOW_SPACE,
{
    crate::tree::lemma_subtree_pages(tree.pager.disk(), tree.root(), tree.height@, None, None, p);
    lemma_node_in(tree.pager.disk(), tree.root(), tree.height@, None, None, p);
}

/// Every page of a sound tree holds a node.
pub proof fn lemma_node_in(disk: Disk, o: int, h: nat, lo: Option<Key>, hi: Option<Key>, p: int)
    requires
        subtree(disk, o, h, lo, hi),
        in_subtree(disk, o, h, p),
    ensures
        node_at(disk, p) is Some,
    decreases h,
{
    if p != o {
        match node_at(disk, o)->Some_0.kind {
            KindView::Internal { keys, children } => {
                let i = choose|i: int|
                    0 <= i < children.len() && in_subtree(
                        disk,
                        #[trigger] children[i] as int,
                        (h - 1) as nat,
                        p,
                    );
                lemma_node_in(
                    disk,
                    children[i] as int,
                    (h - 1) as nat,
                    child_lo(keys, lo, i),
                    child_hi(keys, hi, i),
                    p,
                );
            },
            KindView::Leaf { .. } => {},
        }
    }
}

/// A sound tree whose nodes all occupy the space that a node must holds a
/// key: one that can be stored, within the bounds of the tree.
pub proof fn lemma_snug_holds(disk: Disk, o: int, h: nat, lo: Option<Key>, hi: Option<Key>) -> (k:
    Key)
    requires
        subtree(disk, o, h, lo, hi),
        snug_at(disk, o),
        snug_tree(disk, o, h),
    ensures
        lookup(disk, o, h, k) is Some,
        at_or_above(lo, k),
        below(k, hi),
        crate::node::key_storable(k),
    decreases h,
{
    lemma_decode_space(page_at(disk, o));
    crate::node::lemma_decode_storable(page_at(disk, o));
    match node_at(disk, o)->Some_0.kind {
        KindView::Leaf { next, previous, pairs } => {
            assert(pairs.len() > 0) by {
                if pairs.len() == 0 {
                    assert(crate::node::pairs_space(pairs) == 0);
                }
            }
            crate::tree::lemma_pairs_get_at(pairs, 0);
            assert(at_or_above(lo, pairs[0].0));
            assert(crate::node::key_storable(pairs[0].0));
            pairs[0].0
        },
        KindView::Internal { keys, children } => {
            crate::occupancy::lemma_snug_child(disk, o, h, lo, hi, 0);
            let k = lemma_snug_holds(
                disk,
                children[0] as int,
                (h - 1) as nat,
                child_lo(keys, lo, 0),
                child_hi(keys, hi, 0),
            );
            if keys.len() > 0 {
                crate::tree::lemma_route_is(keys, k, 0);
                assert(below(keys[0], hi));
                if hi is Some {
                    crate::key::lemma_key_lt_transitive(k, keys[0], hi->Some_0);
                }
            }
            assert(crate::tree::route(keys, k) == 0);
            k
        },
    }
}

/// An index that is snug and holds nothing is one leaf without a pair: its
/// tree has the height zero and one node. This is what is left when every
/// key was taken out of an index that `delete` kept snug.
pub proof fn law_empty_index(tree: BTree)
    requires
        tree.valid(),
        all_snug(tree),
        forall|s: Seq<char>| !tree@.contains_key(s),
    ensures
        tree.height@ == 0,
        node_at(tree.pager.disk(), tree.root())->Some_0.kind is Leaf,
        node_at(tree.pager.disk(), tree.root())->Some_0.kind->Leaf_pairs.len() == 0,
        crate::inspect::node_count(tree.pager.disk(), tree.root(), tree.height@) == 1,
{
    let disk = tree.pager.disk();
    let o = tree.root();
    let h = tree.height@;
    crate::node::lemma_decode_storable(page_at(disk, o));
    match node_at(disk, o)->Some_0.kind {
        KindView::Leaf { next, previous, pairs } => {
            if pairs.len() > 0 {
                let k = pairs[0].0;
                crate::tree::lemma_pairs_get_at(pairs, 0);
                assert(crate::node::key_storable(k));
                vstd::utf8::decode_utf8_encode_utf8(k);
                let s = vstd::utf8::decode_utf8(k);
                assert(crate::key::key_of(s) == k);
                assert(tree@.contains_key(s));
            }
        },
        KindView::Internal { keys, children } => {
            crate::occupancy::lemma_snug_child(disk, o, h, None, None, 0);
            let k = lemma_snug_holds(
                disk,
                children[0] as int,
                (h - 1) as nat,
                child_lo(keys, None, 0),
                child_hi(keys, None, 0),
            );
            if keys.len() > 0 {
                crate::tree::lemma_route_is(keys, k, 0);
            }
            assert(crate::tree::route(keys, k) == 0);
            assert(lookup(disk, o, h, k) is Some);
            vstd::utf8::decode_utf8_encode_utf8(k);
            let s = vstd::utf8::decode_utf8(k);
            assert(crate::key::key_of(s) == k);
            assert(tree@.contains_key(s));
        },
    }
}

/// An index whose keys all have the same number of bytes, and whose nodes
/// but the root each occupy the space that a node must, is snug.
pub proof fn law_filled_is_snug(tree: BTree, len: nat)
    requires
        well_filled(tree, len),
    ensures
        all_snug(tree),
{
}

/// In an index whose keys all have the same number of bytes, every node
/// but the root occupies the space that a node must. An index that holds
/// nothing is such an index, and `insert` and `delete` of a key of as many
/// bytes keep it one.
pub proof fn law_underflow(tree: BTree, len: nat, p: int)
    requires
        tree.valid(),
        well_filled(tree, len),
        in_subtree(tree.pager.disk(), tree.root(), tree.height@, p),
        p != tree.root(),
    ensures
        node_at(tree.pager.disk(), p) is Some,
        space_at(tree.pager.disk(), p) >= UNDERFLOW_SPACE,
{
}

/// No node of a sound index occupies more than a page: for every node that
/// is reached from the root, the space it occupies, which is its header,
/// its entries and one byte, is at most the size of a page.
pub proof fn law_no_overflow(tree: BTree, d: nat, p: int)
    requires
        tree.valid(),
        reaches(tree.pager.disk(), tree.root(), d, p),
    ensures
        node_at(tree.pager.disk(), p) is Some,
        space_at(tree.pager.disk(), p) == node_space(node_at(tree.pager.disk(), p)->Some_0.kind),
        space_at(tree.pager.disk(), p) <= PAGE_SIZE,
{
    let disk = tree.pager.disk();
    lemma_reached(disk, tree.root(), tree.height@, None, None, d, p);
    let (plo, phi) = choose|plo: Option<Key>, phi: Option<Key>| #[trigger]
        subtree(disk, p, (tree.height@ - d) as nat, plo, phi);
    lemma_decode_space(page_at(disk, p));
}

/// Every key below a sound tree lies within the bounds of the tree.
pub proof fn lemma_keys_within(
    disk: Disk,
    o: int,
    h: nat,
    lo: Option<Key>,
    hi: Option<Key>,
    k: Key,
)
    requires
        subtree(disk, o, h, lo, hi),
        holds_key(disk, o, h, k),
    ensures
        at_or_above(lo, k),
        below(k, hi),
    decreases h,
{
    let node = node_at(disk, o)->Some_0;
    match node.kind {
        KindView::Internal { keys, children } => {
            let i = choose|i: int|
                0 <= i < children.len() && holds_key(
                    disk,
                    #[trigger] children[i] as int,
                    (h - 1) as nat,
                    k,
                );
            lemma_keys_within(
                disk,
                children[i] as int,
                (h - 1) as nat,
                child_lo(keys, lo, i),
                child_hi(keys, hi, i),
                k,
            );
            if i > 0 {
                assert(crate::tree::above(lo, keys[i - 1]));
                if lo is Some {
                    crate::key::lemma_key_le_lt(lo->Some_0, keys[i - 1], k);
                }
            }
            if i < keys.len() {
                assert(below(keys[i], hi));
                if hi is Some {
                    crate::key::lemma_key_lt_transitive(k, keys[i], hi->Some_0);
                }
            }
        },
        KindView::Leaf { next, previous, pairs } => {
            let i = choose|i: int| 0 <= i < pairs.len() && (#[trigger] pairs[i]).0 == k;
            assert(at_or_above(lo, pairs[i].0));
        },
    }
}

/// The keys of a sound index are in order. In every leaf that is reached
/// from the root the keys come in ascending order, none twice. In every
/// internal node that is reached from the root the separators come in
/// ascending order, and they part the children: a key that lies below the
/// child `i` is at or after the separator before that child, and before the
/// separator after it.
pub proof fn law_key_order(tree: BTree, d: nat, p: int, i: int, k: Key)
    requires
        tree.valid(),
        reaches(tree.pager.disk(), tree.root(), d, p),
    ensures
        match node_at(tree.pager.disk(), p)->Some_0.kind {
            KindView::Leaf { next, previous, pairs } => pairs_sorted(pairs),
            KindView::Internal { keys, children } => {
                &&& keys_sorted(keys)
                &&& children.len() == keys.len() + 1
                &&& d < tree.height@
                &&& 0 <= i < children.len() && holds_key(
                    tree.pager.disk(),
                    children[i] as int,
                    (tree.height@ - d - 1) as nat,
                    k,
                ) ==> (i > 0 ==> !key_lt(k, keys[i - 1])) && (i < keys.len() ==> key_lt(
                    k,
                    keys[i],
                ))
            },
        },
{
    let disk = tree.pager.disk();
    lemma_reached(disk, tree.root(), tree.height@, None, None, d, p);
    let (plo, phi) = choose|plo: Option<Key>, phi: Option<Key>| #[trigger]
        subtree(disk, p, (tree.height@ - d) as nat, plo, phi);
    match node_at(disk, p)->Some_0.kind {
        KindView::Leaf { .. } => {},
        KindView::Internal { keys, children } => {
            let hc = (tree.height@ - d - 1) as nat;
            if 0 <= i < children.len() && holds_key(disk, children[i] as int, hc, k) {
                assert(subtree(
                    disk,
                    children[i] as int,
                    hc,
                    child_lo(keys, plo, i),
                    child_hi(keys, phi, i),
                ));
                lemma_keys_within(
                    disk,
                    children[i] as int,
                    hc,
                    child_lo(keys, plo, i),
                    child_hi(keys, phi, i),
                    k,
                );
                if i > 0 {
                    crate::key::lemma_key_not_lt(k, keys[i - 1]);
                }
            }
        },
    }
}

/// A sound tree has one height.
pub proof fn lemma_one_height(
    disk: Disk,
    o: int,
    h1: nat,
    h2: nat,
    lo1: Option<Key>,
    hi1: Option<Key>,
    lo2: Option<Key>,
    hi2: Option<Key>,
)
    requires
        subtree(disk, o, h1, lo1, hi1),
        subtree(disk, o, h2, lo2, hi2),
    ensures
        h1 == h2,
    decreases h1,
{
    let node = node_at(disk, o)->Some_0;
    match node.kind {
        KindView::Internal { keys, children } => {
            assert(children.len() > 0);
            lemma_one_height(
                disk,
                children[0] as int,
                (h1 - 1) as nat,
                (h2 - 1) as nat,
                child_lo(keys, lo1, 0),
                child_hi(keys, hi1, 0),
                child_lo(keys, lo2, 0),
                child_hi(keys, hi2, 0),
            );
        },
        KindView::Leaf { .. } => {},
    }
}

/// What is kept is what is opened: where a sound index whose pager knows
/// what the storage holds gives the bytes of its storage, and the index is
/// opened from these bytes, the index that is opened is sound and holds what
/// the first one held. Its free list is the free list of the first one from
/// the page on that page zero names, and holds a page where that one did.
pub proof fn law_reopen(before: BTree, image: Seq<u8>, after: BTree)
    requires
        before.valid(),
        durable(before.pager),
        image.len() == before.pager.disk().len() * PAGE_SIZE,
        pages_of(image) == before.pager.disk(),
        names_root(image) ==> opened(image, after),
    ensures
        names_root(image),
        after.valid(),
        after@ == before@,
        durable(after.pager),
        exists|k: int|
            0 <= k <= before.pager.free_list()->Some_0.len()
                && after.pager.free_list()->Some_0 == #[trigger] before.pager.free_list()->Some_0.skip(
                k,
            ),
        before.pager.free_list()->Some_0.len() > 0 ==> after.pager.free_list()->Some_0.len() > 0,
{
    let disk = before.pager.disk();
    let page0 = disk[0];
    let chain = before.pager.free_list()->Some_0;
    let f = word_at(page0, 8);
    let h = before.height@;
    let root = before.root();
    lemma_chain_props(disk, before.pager.head());
    assert(in_subtree(disk, root, h, root));
    assert(live(before.pager, root));
    assert(names_root(image));
    assert(after.pager.disk() == disk);
    assert(root_of(after.pager) == root);
    if f != 0 {
        let k = choose|k: int| 0 <= k < chain.len() && chain[k] == f as int;
        lemma_chain_links(disk, before.pager.head(), k);
        assert(after.pager.head() == f);
        assert(free_chain(disk, f as int) == Some(chain.skip(k)));
        assert forall|p: int| #[trigger] in_subtree(disk, root, h, p) implies live(
            after.pager,
            p,
        ) by {
            assert(live(before.pager, p));
            if chain.skip(k).contains(p) {
                let j = choose|j: int| 0 <= j < chain.skip(k).len() && chain.skip(k)[j] == p;
                assert(chain[k + j] == p);
            }
        }
        assert(chain.skip(k)[0] == f);
        assert(after.pager.free_list()->Some_0 == chain.skip(k));
    } else {
        assert(after.pager.head() == 0);
        assert(chain.len() == 0);
        assert(after.pager.free_list()->Some_0 =~= chain.skip(0));
        assert forall|p: int| #[trigger] in_subtree(disk, root, h, p) implies live(
            after.pager,
            p,
        ) by {
            assert(live(before.pager, p));
        }
    }
    assert(sound(after.pager, h));
    assert(after.valid());
    lemma_one_height(disk, root, h, after.height@, None, None, None, None);
    lemma_view_same(before, after);
}

} // verus!
