//! How full the nodes are where every key has the same number of bytes:
//! the halves of a node that is cut in two then each occupy the space that a
//! node must, and so does every node but the root.

use crate::btree::{BTree, root_of, sound};
use crate::fit::lemma_keys_space_bytes;
use crate::key::Key;
use crate::node::keys_space;
use crate::outcome::{internal_space, kind_keys, leaf_space};
use crate::page_layout::{
    INTERNAL_HEADER_SIZE, KEY_MAX_SIZE, LEAF_HEADER_SIZE, PAGE_SIZE, PTR_SIZE, UNDERFLOW_SPACE,
    VALUE_SIZE,
};
use crate::pager::{Disk, is_page, page_at, Pager};
use crate::split::{is_median, key_bytes};
use crate::tree::{
    all_live, grew, in_subtree, lemma_subtree_grew, live, node_at, pages, settled, space_at,
    subtree,
};
use vstd::prelude::*;

verus! {

/// Whether each of `keys` has `len` bytes.
pub open spec fn even_keys(keys: Seq<Key>, len: nat) -> bool {
    forall|i: int| 0 <= i < keys.len() ==> (#[trigger] keys[i]).len() == len
}

/// Whether a node is stored at `p` whose keys have `len` bytes each.
pub open spec fn even_at(disk: Disk, p: int, len: nat) -> bool {
    node_at(disk, p) is Some && even_keys(kind_keys(node_at(disk, p)->Some_0.kind), len)
}

/// Whether the node stored at `p` occupies the space that a node must.
pub open spec fn snug_at(disk: Disk, p: int) -> bool {
    space_at(disk, p) >= UNDERFLOW_SPACE
}

/// Whether the keys of every node of the tree of height `h` stored at `o`
/// have `len` bytes each, and every node of it but its root occupies the
/// space that a node must.
pub open spec fn filled(disk: Disk, o: int, h: nat, len: nat) -> bool {
    forall|p: int| #[trigger]
        in_subtree(disk, o, h, p) ==> even_at(disk, p, len) && (p != o ==> snug_at(disk, p))
}

/// Whether every page that has come into use from `pre` to `post` holds a
/// node whose keys have `len` bytes each and which, unless it is stored at
/// `exempt`, occupies the space that a node must.
pub open spec fn fresh_fit(pre: Pager, post: Pager, exempt: int, len: nat) -> bool {
    forall|p: int| #[trigger]
        live(post, p) && !live(pre, p) ==> even_at(post.disk(), p, len) && (p != exempt
            ==> snug_at(post.disk(), p))
}

/// Keys of `len` bytes each have `len` bytes for each of them together.
pub proof fn lemma_even_bytes(keys: Seq<Key>, n: int, len: nat)
    requires
        even_keys(keys, len),
        0 <= n <= keys.len(),
    ensures
        key_bytes(keys, n) == n * len,
    decreases n,
{
    if n > 0 {
        lemma_even_bytes(keys, n - 1, len);
        assert(n * len == (n - 1) * len + len) by (nonlinear_arith);
    } else {
        assert(0 * len == 0) by (nonlinear_arith);
    }
}

/// Keys of `len` bytes each take one byte more than `len` for each of them.
pub proof fn lemma_even_space(keys: Seq<Key>, len: nat)
    requires
        even_keys(keys, len),
    ensures
        keys_space(keys) == keys.len() * (1 + len),
{
    lemma_keys_space_bytes(keys);
    lemma_even_bytes(keys, keys.len() as int, len);
    let n = keys.len() as int;
    assert(n * (1 + len) == n + n * len) by (nonlinear_arith);
}

/// Keys of the same number of bytes are cut in two near their middle.
pub proof fn lemma_even_cut(keys: Seq<Key>, m: int, len: nat)
    requires
        even_keys(keys, len),
        len >= 1,
        is_median(keys, m),
    ensures
        2 * m >= keys.len() - 1,
        2 * (keys.len() - m) >= keys.len() - 2,
{
    let n = keys.len() as int;
    lemma_even_bytes(keys, n, len);
    lemma_even_bytes(keys, m + 1, len);
    lemma_even_bytes(keys, m, len);
    let total = n * len;
    assert(2 * (m + 1) > n) by (nonlinear_arith)
        requires
            (m + 1) * len > total / 2 + 1,
            total == n * len,
            len >= 1,
    ;
    if m > 0 {
        assert(key_bytes(keys, (m - 1) + 1) <= key_bytes(keys, n) / 2 + 1);
        assert(2 * m <= n + 2) by (nonlinear_arith)
            requires
                m * len <= total / 2 + 1,
                total == n * len,
                len >= 1,
        ;
    }
}

/// A part of keys of `len` bytes each has keys of `len` bytes each.
pub proof fn lemma_even_part(keys: Seq<Key>, a: int, b: int, len: nat)
    requires
        even_keys(keys, len),
        0 <= a <= b <= keys.len(),
    ensures
        even_keys(keys.subrange(a, b), len),
{
    assert forall|i: int| 0 <= i < b - a implies (#[trigger] keys.subrange(a, b)[i]).len()
        == len by {
        assert(keys.subrange(a, b)[i] == keys[a + i]);
    }
}

/// The space that a leaf with these keys of `len` bytes each occupies.
pub proof fn lemma_even_leaf(keys: Seq<Key>, len: nat)
    requires
        even_keys(keys, len),
    ensures
        leaf_space(keys) == LEAF_HEADER_SIZE + 1 + keys.len() * (9 + len),
{
    lemma_even_space(keys, len);
    let n = keys.len() as int;
    assert(n * (9 + len) == n * (1 + len) + 8 * n) by (nonlinear_arith);
}

/// The space that an internal node with these separators of `len` bytes
/// each occupies.
pub proof fn lemma_even_internal(keys: Seq<Key>, len: nat)
    requires
        even_keys(keys, len),
    ensures
        internal_space(keys) == INTERNAL_HEADER_SIZE + 1 + PTR_SIZE + keys.len() * (9 + len),
{
    lemma_even_space(keys, len);
    let n = keys.len() as int;
    assert(n * (9 + len) == n * (1 + len) + 8 * n) by (nonlinear_arith);
}

/// The halves of a leaf that is about full, with keys of the same number of
/// bytes, each occupy the space that a node must.
pub proof fn lemma_even_leaf_halves(keys: Seq<Key>, m: int, len: nat)
    requires
        even_keys(keys, len),
        1 <= len <= KEY_MAX_SIZE,
        is_median(keys, m),
        leaf_space(keys) + 1 + len + VALUE_SIZE > PAGE_SIZE,
    ensures
        leaf_space(keys.subrange(0, m)) >= UNDERFLOW_SPACE,
        leaf_space(keys.subrange(m, keys.len() as int)) >= UNDERFLOW_SPACE,
{
    let n = keys.len() as int;
    let per = 9 + len;
    lemma_even_cut(keys, m, len);
    lemma_even_leaf(keys, len);
    lemma_even_part(keys, 0, m, len);
    lemma_even_part(keys, m, n, len);
    lemma_even_leaf(keys.subrange(0, m), len);
    lemma_even_leaf(keys.subrange(m, n), len);
    assert(m * per >= 2695 && (n - m) * per >= 2695) by (nonlinear_arith)
        requires
            2 * m >= n - 1,
            2 * (n - m) >= n - 2,
            10 <= per <= 264,
            n * per + per > 8157,
            0 <= m <= n,
    ;
}

/// The halves of an internal node that is full, with separators of the
/// same number of bytes, each occupy the space that a node must.
pub proof fn lemma_even_internal_halves(keys: Seq<Key>, m: int, len: nat)
    requires
        even_keys(keys, len),
        1 <= len <= KEY_MAX_SIZE,
        is_median(keys, m),
        internal_space(keys) >= PAGE_SIZE,
    ensures
        internal_space(keys.subrange(0, m)) >= UNDERFLOW_SPACE,
        internal_space(keys.subrange(m + 1, keys.len() as int)) >= UNDERFLOW_SPACE,
{
    let n = keys.len() as int;
    let per = 9 + len;
    lemma_even_cut(keys, m, len);
    lemma_even_internal(keys, len);
    lemma_even_part(keys, 0, m, len);
    lemma_even_part(keys, m + 1, n, len);
    lemma_even_internal(keys.subrange(0, m), len);
    lemma_even_internal(keys.subrange(m + 1, n), len);
    assert(m * per >= 2703 && (n - m - 1) * per >= 2703) by (nonlinear_arith)
        requires
            2 * m >= n - 1,
            2 * (n - m) >= n - 2,
            10 <= per <= 264,
            n * per >= 8165,
            0 <= m < n,
    ;
}

/// Whether `n` is the only page that has come into use from `pre` to
/// `post`.
pub open spec fn one_more(pre: Pager, post: Pager, n: int) -> bool {
    forall|p: int| #[trigger] live(post, p) ==> live(pre, p) || p == n
}

/// One node written is all that has come into use.
pub proof fn lemma_fresh_one(pre: Pager, post: Pager, n: int, exempt: int, len: nat)
    requires
        one_more(pre, post, n),
        even_at(post.disk(), n, len),
        n != exempt ==> snug_at(post.disk(), n),
    ensures
        fresh_fit(pre, post, exempt, len),
{
}

/// One more node written, after others, is all that has come into use
/// with them.
pub proof fn lemma_fresh_more(
    pre: Pager,
    mid: Pager,
    post: Pager,
    n: int,
    before: int,
    exempt: int,
    len: nat,
)
    requires
        fresh_fit(pre, mid, before, len),
        grew(mid, post),
        one_more(mid, post, n),
        even_at(post.disk(), n, len),
        n != exempt ==> snug_at(post.disk(), n),
        before != exempt && live(mid, before) && !live(pre, before) ==> snug_at(mid.disk(), before),
    ensures
        fresh_fit(pre, post, exempt, len),
{
    assert forall|p: int| #[trigger] live(post, p) && !live(pre, p) implies even_at(
        post.disk(),
        p,
        len,
    ) && (p != exempt ==> snug_at(post.disk(), p)) by {
        if p != n {
            assert(live(mid, p));
            assert(page_at(post.disk(), p) == page_at(mid.disk(), p));
        }
    }
}

/// Putting a key of `len` bytes among keys of `len` bytes each gives keys
/// of `len` bytes each.
pub proof fn lemma_even_insert(keys: Seq<Key>, idx: int, key: Key, len: nat)
    requires
        even_keys(keys, len),
        key.len() == len,
        0 <= idx <= keys.len(),
    ensures
        even_keys(keys.insert(idx, key), len),
{
    let more = keys.insert(idx, key);
    assert forall|i: int| 0 <= i < more.len() implies (#[trigger] more[i]).len() == len by {
        if i < idx {
            assert(more[i] == keys[i]);
        } else if i > idx {
            assert(more[i] == keys[i - 1]);
        }
    }
}

/// Whether the keys of every node of the index have `len` bytes each, and
/// every node but the root occupies the space that a node must.
pub open spec fn well_filled(tree: BTree, len: nat) -> bool {
    filled(tree.pager.disk(), tree.root(), tree.height@, len)
}

/// A tree that has taken the place of a tree that is filled, and whose
/// new pages hold nodes that are filled, is filled.
pub proof fn lemma_filled_settled(
    pre: Pager,
    post: Pager,
    o: int,
    h: nat,
    n: int,
    h2: nat,
    fq: Seq<usize>,
    len: nat,
)
    requires
        filled(pre.disk(), o, h, len),
        all_live(pre, o, h),
        grew(pre, post),
        settled(pre, post, o, h, n, h2, fq),
        fresh_fit(pre, post, n, len),
    ensures
        filled(post.disk(), n, h2, len),
{
    assert forall|p: int| #[trigger] in_subtree(post.disk(), n, h2, p) implies even_at(
        post.disk(),
        p,
        len,
    ) && (p != n ==> snug_at(post.disk(), p)) by {
        if in_subtree(pre.disk(), o, h, p) && p != o {
            assert(live(pre, p));
            assert(page_at(post.disk(), p) == page_at(pre.disk(), p));
        }
    }
}

/// A tree that is filled is filled wherever its pages are what they were.
pub proof fn lemma_filled_kept(before: Disk, after: Disk, n: int, h: nat, len: nat)
    requires
        filled(before, n, h, len),
        pages(after, n, h) == pages(before, n, h),
        forall|p: int| #[trigger]
            in_subtree(before, n, h, p) ==> is_page(after, p) && page_at(after, p) == page_at(
                before,
                p,
            ),
    ensures
        filled(after, n, h, len),
{
    assert forall|p: int| #[trigger] in_subtree(after, n, h, p) implies even_at(after, p, len)
        && (p != n ==> snug_at(after, p)) by {
        assert(pages(after, n, h).contains(p));
        assert(pages(before, n, h).contains(p));
        assert(in_subtree(before, n, h, p));
    }
}

/// The tree that an operation has written in the place of a tree that is
/// filled, with new nodes that are filled, is filled once it is the tree of
/// the index and the pages of the old nodes are given back.
pub proof fn lemma_filled_after(
    pre: Pager,
    mid: Pager,
    post: Pager,
    o: int,
    h: nat,
    n: int,
    h2: nat,
    fq: Seq<usize>,
    len: nat,
)
    requires
        filled(pre.disk(), o, h, len),
        all_live(pre, o, h),
        grew(pre, mid),
        settled(pre, mid, o, h, n, h2, fq),
        fresh_fit(pre, mid, n, len),
        pages(post.disk(), n, h2) == pages(mid.disk(), n, h2),
        forall|p: int| #[trigger]
            live(mid, p) && !fq.contains(p as usize) ==> live(post, p) && page_at(post.disk(), p)
                == page_at(mid.disk(), p),
    ensures
        filled(post.disk(), n, h2, len),
{
    lemma_filled_settled(pre, mid, o, h, n, h2, fq, len);
    lemma_filled_kept(mid.disk(), post.disk(), n, h2, len);
}

/// Keys of `len` bytes each, but one of them, have `len` bytes each.
pub proof fn lemma_even_remove(keys: Seq<Key>, idx: int, len: nat)
    requires
        even_keys(keys, len),
        0 <= idx < keys.len(),
    ensures
        even_keys(keys.remove(idx), len),
{
    let fewer = keys.remove(idx);
    assert forall|i: int| 0 <= i < fewer.len() implies (#[trigger] fewer[i]).len() == len by {
        if i < idx {
            assert(fewer[i] == keys[i]);
        } else {
            assert(fewer[i] == keys[i + 1]);
        }
    }
}

/// Keys of `len` bytes each, with a key of `len` bytes in the place of one
/// of them, have `len` bytes each and take the space they took.
pub proof fn lemma_even_update(keys: Seq<Key>, idx: int, key: Key, len: nat)
    requires
        even_keys(keys, len),
        key.len() == len,
        0 <= idx < keys.len(),
    ensures
        even_keys(keys.update(idx, key), len),
        internal_space(keys.update(idx, key)) == internal_space(keys),
{
    let other = keys.update(idx, key);
    assert forall|i: int| 0 <= i < other.len() implies (#[trigger] other[i]).len() == len by {
        if i != idx {
            assert(other[i] == keys[i]);
        }
    }
    lemma_even_internal(keys, len);
    lemma_even_internal(other, len);
}

/// Keys of `len` bytes each followed by keys of `len` bytes each have
/// `len` bytes each.
pub proof fn lemma_even_concat(a: Seq<Key>, b: Seq<Key>, len: nat)
    requires
        even_keys(a, len),
        even_keys(b, len),
    ensures
        even_keys(a + b, len),
{
    assert forall|i: int| 0 <= i < (a + b).len() implies (#[trigger] (a + b)[i]).len() == len by {
        if i < a.len() {
            assert((a + b)[i] == a[i]);
        } else {
            assert((a + b)[i] == b[i - a.len()]);
        }
    }
}

/// The tree of a sound index is as filled as it was after pages are
/// taken.
pub proof fn lemma_filled_grew(pre: Pager, post: Pager, h: nat)
    requires
        sound(pre, h),
        grew(pre, post),
    ensures
        forall|len: nat| #[trigger]
            filled(pre.disk(), root_of(pre), h, len) ==> filled(
                post.disk(),
                root_of(post),
                h,
                len,
            ),
{
    let o = root_of(pre);
    lemma_subtree_grew(pre, post, o, h, None, None);
    assert forall|p: int| #[trigger] in_subtree(pre.disk(), o, h, p) implies is_page(
        post.disk(),
        p,
    ) && page_at(post.disk(), p) == page_at(pre.disk(), p) by {
        assert(live(pre, p));
    }
    assert forall|len: nat| #[trigger] filled(pre.disk(), o, h, len) implies filled(
        post.disk(),
        o,
        h,
        len,
    ) by {
        lemma_filled_kept(pre.disk(), post.disk(), o, h, len);
    }
}

/// Whether every node of the tree of height `h` stored at `o`, but its
/// root, occupies the space that a node must.
pub open spec fn snug_tree(disk: Disk, o: int, h: nat) -> bool {
    forall|p: int| #[trigger] in_subtree(disk, o, h, p) && p != o ==> snug_at(disk, p)
}

/// Whether every node of the index but the root occupies the space that a
/// node must.
pub open spec fn all_snug(tree: BTree) -> bool {
    snug_tree(tree.pager.disk(), tree.root(), tree.height@)
}

/// Whether every page that has come into use from `pre` to `post`, but
/// `exempt`, holds a node that occupies the space that a node must.
pub open spec fn fresh_snug(pre: Pager, post: Pager, exempt: int) -> bool {
    forall|p: int| #[trigger] live(post, p) && !live(pre, p) && p != exempt ==> snug_at(post.disk(), p)
}

/// One more node written, after others, is all that has come into use
/// with them.
pub proof fn lemma_snug_more(pre: Pager, mid: Pager, post: Pager, n: int, before: int, exempt: int)
    requires
        fresh_snug(pre, mid, before),
        grew(mid, post),
        one_more(mid, post, n),
        n != exempt ==> snug_at(post.disk(), n),
        before != exempt && live(mid, before) && !live(pre, before) ==> snug_at(mid.disk(), before),
    ensures
        fresh_snug(pre, post, exempt),
{
    assert forall|p: int| #[trigger] live(post, p) && !live(pre, p) && p != exempt implies snug_at(
        post.disk(),
        p,
    ) by {
        if p != n {
            assert(live(mid, p));
            assert(page_at(post.disk(), p) == page_at(mid.disk(), p));
        }
    }
}

/// The tree that an operation has written in the place of a tree whose
/// nodes but the root occupy the space that a node must, with new nodes that
/// do, is such a tree once it is the tree of the index and the pages of the
/// old nodes are given back.
pub proof fn lemma_snug_after(
    pre: Pager,
    mid: Pager,
    post: Pager,
    o: int,
    h: nat,
    n: int,
    h2: nat,
    fq: Seq<usize>,
)
    requires
        snug_tree(pre.disk(), o, h),
        all_live(pre, o, h),
        grew(pre, mid),
        settled(pre, mid, o, h, n, h2, fq),
        fresh_snug(pre, mid, n),
        pages(post.disk(), n, h2) == pages(mid.disk(), n, h2),
        forall|p: int| #[trigger]
            live(mid, p) && !fq.contains(p as usize) ==> live(post, p) && page_at(post.disk(), p)
                == page_at(mid.disk(), p),
    ensures
        snug_tree(post.disk(), n, h2),
{
    assert forall|p: int| #[trigger] in_subtree(post.disk(), n, h2, p) && p != n implies snug_at(
        post.disk(),
        p,
    ) by {
        assert(pages(post.disk(), n, h2).contains(p));
        assert(pages(mid.disk(), n, h2).contains(p));
        assert(in_subtree(mid.disk(), n, h2, p));
        assert(page_at(post.disk(), p) == page_at(mid.disk(), p));
        if in_subtree(pre.disk(), o, h, p) && p != o {
            assert(live(pre, p));
            assert(page_at(mid.disk(), p) == page_at(pre.disk(), p));
        }
    }
}

/// The nodes of the tree of a sound index occupy what they occupied after
/// pages are taken.
pub proof fn lemma_snug_grew(pre: Pager, post: Pager, h: nat)
    requires
        sound(pre, h),
        grew(pre, post),
    ensures
        snug_tree(pre.disk(), root_of(pre), h) ==> snug_tree(post.disk(), root_of(post), h),
{
    let o = root_of(pre);
    lemma_subtree_grew(pre, post, o, h, None, None);
    if snug_tree(pre.disk(), o, h) {
        assert forall|p: int| #[trigger] in_subtree(post.disk(), o, h, p) && p != o implies snug_at(
            post.disk(),
            p,
        ) by {
            assert(pages(post.disk(), o, h).contains(p));
            assert(pages(pre.disk(), o, h).contains(p));
            assert(in_subtree(pre.disk(), o, h, p));
            assert(live(pre, p));
        }
    }
}

/// The tree below a child of a node of a tree whose nodes but the root
/// occupy the space that a node must is such a tree, and so does the child.
pub proof fn lemma_snug_child(disk: Disk, o: int, h: nat, lo: Option<Key>, hi: Option<Key>, i: int)
    requires
        subtree(disk, o, h, lo, hi),
        snug_tree(disk, o, h),
        node_at(disk, o)->Some_0.kind is Internal,
        0 <= i < node_at(disk, o)->Some_0.kind->Internal_children.len(),
    ensures
        snug_tree(disk, node_at(disk, o)->Some_0.kind->Internal_children[i] as int, (h - 1) as nat),
        snug_at(disk, node_at(disk, o)->Some_0.kind->Internal_children[i] as int),
{
    let c = node_at(disk, o)->Some_0.kind->Internal_children[i] as int;
    assert(in_subtree(disk, c, (h - 1) as nat, c));
    assert(!in_subtree(disk, c, (h - 1) as nat, o));
    assert(in_subtree(disk, o, h, c));
    assert forall|p: int| #[trigger] in_subtree(disk, c, (h - 1) as nat, p) && p != c implies snug_at(
        disk,
        p,
    ) by {
        assert(in_subtree(disk, o, h, p));
    }
}

} // verus!
