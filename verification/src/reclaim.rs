//! Where the pages of the old tree go when an operation writes a new one:
//! each is among the pages to give back, or is a page of the new tree.

use crate::key::Key;
use crate::pager::{Disk, Pager};
use crate::tree::{
    all_live, child_hi, child_lo, grew, in_subtree, lemma_subtree_grew, live, node_at, pages, ready,
    settled, subtree,
};
use vstd::prelude::*;

verus! {

/// Whether `p` is a page of one of the trees of height `hc` stored at
/// `kids`.
pub open spec fn in_any(disk: Disk, kids: Seq<usize>, hc: nat, p: int) -> bool {
    exists|i: int| 0 <= i < kids.len() && in_subtree(disk, #[trigger] kids[i] as int, hc, p)
}

/// Whether every page of the tree of height `h` stored at `o` in `pre`, but
/// its root, is among the pages `fq` to give back or is a page of one of
/// the trees of height `hc` stored at `kids` in `cur`.
pub open spec fn covered(
    pre: Disk,
    o: int,
    h: nat,
    cur: Disk,
    kids: Seq<usize>,
    hc: nat,
    fq: Seq<usize>,
) -> bool {
    forall|p: int| #[trigger]
        in_subtree(pre, o, h, p) ==> p == o || fq.contains(p as usize) || in_any(cur, kids, hc, p)
}

/// Whether every page of the tree of height `h` stored at `o` in `pre` is
/// among the pages `fq` to give back or is a page of the tree of height `h2`
/// stored at `n` in `post`.
pub open spec fn accounted(
    pre: Disk,
    o: int,
    h: nat,
    post: Disk,
    n: int,
    h2: nat,
    fq: Seq<usize>,
) -> bool {
    forall|p: int| #[trigger]
        in_subtree(pre, o, h, p) ==> fq.contains(p as usize) || in_subtree(post, n, h2, p)
}

/// Whether every page of the tree of height `h` stored at `o` in `pre` is
/// among the pages `fq` to give back or is a page of one of the two trees
/// of height `h2` stored at `first` and `second` in `post`.
pub open spec fn accounted_two(
    pre: Disk,
    o: int,
    h: nat,
    post: Disk,
    first: int,
    second: int,
    h2: nat,
    fq: Seq<usize>,
) -> bool {
    forall|p: int| #[trigger]
        in_subtree(pre, o, h, p) ==> fq.contains(p as usize) || in_subtree(post, first, h2, p)
            || in_subtree(post, second, h2, p)
}

/// The trees below children that are ready hold the pages they held after
/// more pages are taken.
pub proof fn lemma_children_stay(
    pre: Pager,
    cur: Pager,
    post: Pager,
    o: int,
    h: nat,
    keys: Seq<Key>,
    kids: Seq<usize>,
    hc: nat,
    lo: Option<Key>,
    hi: Option<Key>,
    fq: Seq<usize>,
)
    requires
        ready(pre, cur, o, h, keys, kids, hc, lo, hi, fq),
        grew(cur, post),
    ensures
        forall|p: int| in_any(cur.disk(), kids, hc, p) ==> #[trigger] in_any(post.disk(), kids, hc, p),
{
    reveal(ready);
    assert forall|p: int| in_any(cur.disk(), kids, hc, p) implies #[trigger] in_any(
        post.disk(),
        kids,
        hc,
        p,
    ) by {
        let i = choose|i: int|
            0 <= i < kids.len() && in_subtree(cur.disk(), #[trigger] kids[i] as int, hc, p);
        assert(settled(pre, cur, o, h, kids[i] as int, hc, fq));
        lemma_subtree_grew(
            cur,
            post,
            kids[i] as int,
            hc,
            child_lo(keys, lo, i),
            child_hi(keys, hi, i),
        );
        assert(pages(cur.disk(), kids[i] as int, hc).contains(p));
        assert(pages(post.disk(), kids[i] as int, hc).contains(p));
    }
}

/// A node written over children that are ready, which cover the old tree,
/// accounts for the old tree once the old root is among the pages to give
/// back.
pub proof fn lemma_account_node(
    pre: Pager,
    cur: Pager,
    post: Pager,
    o: int,
    h: nat,
    keys: Seq<Key>,
    kids: Seq<usize>,
    hc: nat,
    lo: Option<Key>,
    hi: Option<Key>,
    n: int,
    fq: Seq<usize>,
    fq2: Seq<usize>,
)
    requires
        ready(pre, cur, o, h, keys, kids, hc, lo, hi, fq),
        grew(cur, post),
        covered(pre.disk(), o, h, cur.disk(), kids, hc, fq),
        node_at(post.disk(), n) is Some,
        node_at(post.disk(), n)->Some_0.kind is Internal,
        node_at(post.disk(), n)->Some_0.kind->Internal_children == kids,
        forall|x: usize| fq.contains(x) ==> fq2.contains(x),
        fq2.contains(o as usize),
    ensures
        accounted(pre.disk(), o, h, post.disk(), n, hc + 1, fq2),
{
    lemma_children_stay(pre, cur, post, o, h, keys, kids, hc, lo, hi, fq);
    assert forall|p: int| #[trigger] in_subtree(pre.disk(), o, h, p) implies fq2.contains(
        p as usize,
    ) || in_subtree(post.disk(), n, hc + 1, p) by {
        if p != o && !fq.contains(p as usize) {
            assert(in_any(cur.disk(), kids, hc, p));
            assert(in_any(post.disk(), kids, hc, p));
            let i = choose|i: int|
                0 <= i < kids.len() && in_subtree(post.disk(), #[trigger] kids[i] as int, hc, p);
            let hn = (hc + 1) as nat;
            assert((hn - 1) as nat == hc);
            assert(in_subtree(post.disk(), kids[i] as int, (hn - 1) as nat, p));
            assert(node_at(post.disk(), n)->Some_0.kind->Internal_children[i] == kids[i]);
            assert(in_subtree(post.disk(), n, hn, p));
        }
    }
}

/// Two nodes written over the two parts of children that are ready, which
/// cover the old tree, account for the old tree once the old root is among
/// the pages to give back.
pub proof fn lemma_account_two(
    pre: Pager,
    cur: Pager,
    post: Pager,
    o: int,
    h: nat,
    keys: Seq<Key>,
    kids: Seq<usize>,
    hc: nat,
    lo: Option<Key>,
    hi: Option<Key>,
    cut: int,
    first: int,
    second: int,
    fq: Seq<usize>,
    fq2: Seq<usize>,
)
    requires
        ready(pre, cur, o, h, keys, kids, hc, lo, hi, fq),
        grew(cur, post),
        covered(pre.disk(), o, h, cur.disk(), kids, hc, fq),
        0 <= cut < kids.len(),
        node_at(post.disk(), first) is Some,
        node_at(post.disk(), first)->Some_0.kind is Internal,
        node_at(post.disk(), first)->Some_0.kind->Internal_children == kids.subrange(0, cut),
        node_at(post.disk(), second) is Some,
        node_at(post.disk(), second)->Some_0.kind is Internal,
        node_at(post.disk(), second)->Some_0.kind->Internal_children == kids.subrange(
            cut,
            kids.len() as int,
        ),
        forall|x: usize| fq.contains(x) ==> fq2.contains(x),
        fq2.contains(o as usize),
    ensures
        accounted_two(pre.disk(), o, h, post.disk(), first, second, hc + 1, fq2),
{
    lemma_children_stay(pre, cur, post, o, h, keys, kids, hc, lo, hi, fq);
    let left = kids.subrange(0, cut);
    let right = kids.subrange(cut, kids.len() as int);
    assert forall|p: int| #[trigger] in_subtree(pre.disk(), o, h, p) implies fq2.contains(
        p as usize,
    ) || in_subtree(post.disk(), first, hc + 1, p) || in_subtree(post.disk(), second, hc + 1, p) by {
        if p != o && !fq.contains(p as usize) {
            assert(in_any(cur.disk(), kids, hc, p));
            assert(in_any(post.disk(), kids, hc, p));
            let i = choose|i: int|
                0 <= i < kids.len() && in_subtree(post.disk(), #[trigger] kids[i] as int, hc, p);
            if i < cut {
                assert(left[i] == kids[i]);
                assert(in_subtree(post.disk(), left[i] as int, hc, p));
                assert(in_subtree(post.disk(), first, hc + 1, p));
            } else {
                assert(right[i - cut] == kids[i]);
                assert(in_subtree(post.disk(), right[i - cut] as int, hc, p));
                assert(in_subtree(post.disk(), second, hc + 1, p));
            }
        }
    }
}

/// The children of a sound node other than the child `idx` hold the pages
/// they held after pages are taken.
pub proof fn lemma_others_kept(
    pre: Pager,
    cur: Pager,
    o: int,
    h: nat,
    lo: Option<Key>,
    hi: Option<Key>,
    i: int,
    p: int,
)
    requires
        subtree(pre.disk(), o, h, lo, hi),
        node_at(pre.disk(), o)->Some_0.kind is Internal,
        all_live(pre, o, h),
        grew(pre, cur),
        0 <= i < node_at(pre.disk(), o)->Some_0.kind->Internal_children.len(),
        in_subtree(
            pre.disk(),
            node_at(pre.disk(), o)->Some_0.kind->Internal_children[i] as int,
            (h - 1) as nat,
            p,
        ),
    ensures
        in_subtree(
            cur.disk(),
            node_at(pre.disk(), o)->Some_0.kind->Internal_children[i] as int,
            (h - 1) as nat,
            p,
        ),
{
    let keys = node_at(pre.disk(), o)->Some_0.kind->Internal_keys;
    let kids = node_at(pre.disk(), o)->Some_0.kind->Internal_children;
    let c = kids[i] as int;
    assert forall|q: int| #[trigger] in_subtree(pre.disk(), c, (h - 1) as nat, q) implies live(
        pre,
        q,
    ) by {
        assert(in_subtree(pre.disk(), o, h, q));
    }
    lemma_subtree_grew(pre, cur, c, (h - 1) as nat, child_lo(keys, lo, i), child_hi(keys, hi, i));
    assert(pages(pre.disk(), c, (h - 1) as nat).contains(p));
    assert(pages(cur.disk(), c, (h - 1) as nat).contains(p));
}

/// The children of a sound node, with the child `idx` replaced by a tree
/// that accounts for it, cover the tree of the node.
pub proof fn lemma_cover_one(
    pre: Pager,
    cur: Pager,
    o: int,
    h: nat,
    lo: Option<Key>,
    hi: Option<Key>,
    idx: int,
    c2: usize,
    fq: Seq<usize>,
)
    requires
        subtree(pre.disk(), o, h, lo, hi),
        node_at(pre.disk(), o)->Some_0.kind is Internal,
        all_live(pre, o, h),
        grew(pre, cur),
        0 <= idx < node_at(pre.disk(), o)->Some_0.kind->Internal_children.len(),
        accounted(
            pre.disk(),
            node_at(pre.disk(), o)->Some_0.kind->Internal_children[idx] as int,
            (h - 1) as nat,
            cur.disk(),
            c2 as int,
            (h - 1) as nat,
            fq,
        ),
    ensures
        covered(
            pre.disk(),
            o,
            h,
            cur.disk(),
            node_at(pre.disk(), o)->Some_0.kind->Internal_children.update(idx, c2),
            (h - 1) as nat,
            fq,
        ),
{
    let kids = node_at(pre.disk(), o)->Some_0.kind->Internal_children;
    let more = kids.update(idx, c2);
    let hc = (h - 1) as nat;
    assert forall|p: int| #[trigger] in_subtree(pre.disk(), o, h, p) implies p == o || fq.contains(
        p as usize,
    ) || in_any(cur.disk(), more, hc, p) by {
        if p != o {
            let i = choose|i: int|
                0 <= i < kids.len() && in_subtree(pre.disk(), #[trigger] kids[i] as int, hc, p);
            if i == idx {
                if !fq.contains(p as usize) {
                    assert(in_subtree(cur.disk(), more[idx] as int, hc, p));
                }
            } else {
                lemma_others_kept(pre, cur, o, h, lo, hi, i, p);
                assert(in_subtree(cur.disk(), more[i] as int, hc, p));
            }
        }
    }
}

/// The children of a sound node, with the child `idx` replaced by two
/// trees that account for it, cover the tree of the node.
pub proof fn lemma_cover_two(
    pre: Pager,
    cur: Pager,
    o: int,
    h: nat,
    lo: Option<Key>,
    hi: Option<Key>,
    idx: int,
    first: usize,
    second: usize,
    fq: Seq<usize>,
)
    requires
        subtree(pre.disk(), o, h, lo, hi),
        node_at(pre.disk(), o)->Some_0.kind is Internal,
        all_live(pre, o, h),
        grew(pre, cur),
        0 <= idx < node_at(pre.disk(), o)->Some_0.kind->Internal_children.len(),
        accounted_two(
            pre.disk(),
            node_at(pre.disk(), o)->Some_0.kind->Internal_children[idx] as int,
            (h - 1) as nat,
            cur.disk(),
            first as int,
            second as int,
            (h - 1) as nat,
            fq,
        ),
    ensures
        covered(
            pre.disk(),
            o,
            h,
            cur.disk(),
            node_at(pre.disk(), o)->Some_0.kind->Internal_children.update(idx, first).insert(
                idx + 1,
                second,
            ),
            (h - 1) as nat,
            fq,
        ),
{
    let kids = node_at(pre.disk(), o)->Some_0.kind->Internal_children;
    let more = kids.update(idx, first).insert(idx + 1, second);
    let hc = (h - 1) as nat;
    assert forall|p: int| #[trigger] in_subtree(pre.disk(), o, h, p) implies p == o || fq.contains(
        p as usize,
    ) || in_any(cur.disk(), more, hc, p) by {
        if p != o {
            let i = choose|i: int|
                0 <= i < kids.len() && in_subtree(pre.disk(), #[trigger] kids[i] as int, hc, p);
            if i == idx {
                if !fq.contains(p as usize) {
                    if in_subtree(cur.disk(), first as int, hc, p) {
                        assert(in_subtree(cur.disk(), more[idx] as int, hc, p));
                    } else {
                        assert(in_subtree(cur.disk(), more[idx + 1] as int, hc, p));
                    }
                }
            } else {
                lemma_others_kept(pre, cur, o, h, lo, hi, i, p);
                if i < idx {
                    assert(more[i] == kids[i]);
                    assert(in_subtree(cur.disk(), more[i] as int, hc, p));
                } else {
                    assert(more[i + 1] == kids[i]);
                    assert(in_subtree(cur.disk(), more[i + 1] as int, hc, p));
                }
            }
        }
    }
}

/// Once the new tree is the tree of the index and the pages to give back
/// are in the free list, every page of the old tree that is no page of the
/// new tree is in the free list.
pub proof fn lemma_reclaimed(
    pre: Pager,
    mid: Pager,
    post: Pager,
    o: int,
    h: nat,
    n: int,
    h2: nat,
    fq: Seq<usize>,
)
    requires
        pre.wf(),
        accounted(pre.disk(), o, h, mid.disk(), n, h2, fq),
        all_live(pre, o, h),
        pages(post.disk(), n, h2) == pages(mid.disk(), n, h2),
        forall|x: usize| fq.contains(x) ==> #[trigger] post.free_list()->Some_0.contains(x as int),
    ensures
        forall|p: int| #[trigger]
            in_subtree(pre.disk(), o, h, p) && !in_subtree(post.disk(), n, h2, p)
                ==> post.free_list()->Some_0.contains(p),
{
    assert forall|p: int| #[trigger]
        in_subtree(pre.disk(), o, h, p) && !in_subtree(
            post.disk(),
            n,
            h2,
            p,
        ) implies post.free_list()->Some_0.contains(p) by {
        assert(live(pre, p));
        assert(0 <= p < pre.curser);
        if in_subtree(mid.disk(), n, h2, p) {
            assert(pages(mid.disk(), n, h2).contains(p));
            assert(pages(post.disk(), n, h2).contains(p));
        }
        assert(fq.contains(p as usize));
        assert(post.free_list()->Some_0.contains(p as usize as int));
    }
}

/// Whether every page of the two trees of height `hc` stored at `a` and
/// `b` in `pre`, but their roots, is among the pages `fq` to give back or is
/// a page of one of the trees of height `hk` stored at `kids` in `cur`.
pub open spec fn pair_covered(
    pre: Disk,
    a: int,
    b: int,
    hc: nat,
    cur: Disk,
    kids: Seq<usize>,
    hk: nat,
    fq: Seq<usize>,
) -> bool {
    forall|p: int|
        in_subtree(pre, a, hc, p) || in_subtree(pre, b, hc, p) ==> p == a || p == b || fq.contains(
            p as usize,
        ) || #[trigger] in_any(cur, kids, hk, p)
}

/// The children of a sound node, with the children `si` and `si + 1`
/// replaced by one tree that covers the two, cover the tree of the node once
/// the two are among the pages to give back.
pub proof fn lemma_cover_merged(
    pre: Pager,
    cur: Pager,
    o: int,
    h: nat,
    lo: Option<Key>,
    hi: Option<Key>,
    si: int,
    n: usize,
    fq: Seq<usize>,
    fq2: Seq<usize>,
)
    requires
        subtree(pre.disk(), o, h, lo, hi),
        node_at(pre.disk(), o)->Some_0.kind is Internal,
        all_live(pre, o, h),
        pre.wf(),
        grew(pre, cur),
        0 <= si,
        si + 1 < node_at(pre.disk(), o)->Some_0.kind->Internal_children.len(),
        pair_covered(
            pre.disk(),
            node_at(pre.disk(), o)->Some_0.kind->Internal_children[si] as int,
            node_at(pre.disk(), o)->Some_0.kind->Internal_children[si + 1] as int,
            (h - 1) as nat,
            cur.disk(),
            seq![n],
            (h - 1) as nat,
            fq,
        ),
        forall|x: usize| fq.contains(x) ==> fq2.contains(x),
        fq2.contains(node_at(pre.disk(), o)->Some_0.kind->Internal_children[si]),
        fq2.contains(node_at(pre.disk(), o)->Some_0.kind->Internal_children[si + 1]),
    ensures
        covered(
            pre.disk(),
            o,
            h,
            cur.disk(),
            node_at(pre.disk(), o)->Some_0.kind->Internal_children.remove(si + 1).update(si, n),
            (h - 1) as nat,
            fq2,
        ),
{
    let kids = node_at(pre.disk(), o)->Some_0.kind->Internal_children;
    let more = kids.remove(si + 1).update(si, n);
    let hc = (h - 1) as nat;
    assert forall|p: int| #[trigger] in_subtree(pre.disk(), o, h, p) implies p == o
        || fq2.contains(p as usize) || in_any(cur.disk(), more, hc, p) by {
        if p != o {
            assert(live(pre, p));
            assert(0 <= p < pre.curser);
            let i = choose|i: int|
                0 <= i < kids.len() && in_subtree(pre.disk(), #[trigger] kids[i] as int, hc, p);
            if i == si || i == si + 1 {
                if p != kids[si] && p != kids[si + 1] && !fq.contains(p as usize) {
                    let one = seq![n];
                    assert(in_any(cur.disk(), one, hc, p));
                    let j = choose|j: int|
                        0 <= j < one.len() && in_subtree(cur.disk(), #[trigger] one[j] as int, hc, p);
                    assert(in_subtree(cur.disk(), more[si] as int, hc, p));
                }
            } else {
                lemma_others_kept(pre, cur, o, h, lo, hi, i, p);
                if i < si {
                    assert(more[i] == kids[i]);
                    assert(in_subtree(cur.disk(), more[i] as int, hc, p));
                } else {
                    assert(more[i - 1] == kids[i]);
                    assert(in_subtree(cur.disk(), more[i - 1] as int, hc, p));
                }
            }
        }
    }
}

/// The children of a sound node, with the children `si` and `si + 1`
/// replaced by two trees that cover the two, cover the tree of the node
/// once the two are among the pages to give back.
pub proof fn lemma_cover_shared(
    pre: Pager,
    cur: Pager,
    o: int,
    h: nat,
    lo: Option<Key>,
    hi: Option<Key>,
    si: int,
    a: usize,
    b: usize,
    fq: Seq<usize>,
    fq2: Seq<usize>,
)
    requires
        subtree(pre.disk(), o, h, lo, hi),
        node_at(pre.disk(), o)->Some_0.kind is Internal,
        all_live(pre, o, h),
        pre.wf(),
        grew(pre, cur),
        0 <= si,
        si + 1 < node_at(pre.disk(), o)->Some_0.kind->Internal_children.len(),
        pair_covered(
            pre.disk(),
            node_at(pre.disk(), o)->Some_0.kind->Internal_children[si] as int,
            node_at(pre.disk(), o)->Some_0.kind->Internal_children[si + 1] as int,
            (h - 1) as nat,
            cur.disk(),
            seq![a, b],
            (h - 1) as nat,
            fq,
        ),
        forall|x: usize| fq.contains(x) ==> fq2.contains(x),
        fq2.contains(node_at(pre.disk(), o)->Some_0.kind->Internal_children[si]),
        fq2.contains(node_at(pre.disk(), o)->Some_0.kind->Internal_children[si + 1]),
    ensures
        covered(
            pre.disk(),
            o,
            h,
            cur.disk(),
            node_at(pre.disk(), o)->Some_0.kind->Internal_children.update(si, a).update(si + 1, b),
            (h - 1) as nat,
            fq2,
        ),
{
    let kids = node_at(pre.disk(), o)->Some_0.kind->Internal_children;
    let more = kids.update(si, a).update(si + 1, b);
    let hc = (h - 1) as nat;
    assert forall|p: int| #[trigger] in_subtree(pre.disk(), o, h, p) implies p == o
        || fq2.contains(p as usize) || in_any(cur.disk(), more, hc, p) by {
        if p != o {
            assert(live(pre, p));
            assert(0 <= p < pre.curser);
            let i = choose|i: int|
                0 <= i < kids.len() && in_subtree(pre.disk(), #[trigger] kids[i] as int, hc, p);
            if i == si || i == si + 1 {
                if p != kids[si] && p != kids[si + 1] && !fq.contains(p as usize) {
                    let two = seq![a, b];
                    assert(in_any(cur.disk(), two, hc, p));
                    let j = choose|j: int|
                        0 <= j < two.len() && in_subtree(cur.disk(), #[trigger] two[j] as int, hc, p);
                    if j == 0 {
                        assert(in_subtree(cur.disk(), more[si] as int, hc, p));
                    } else {
                        assert(in_subtree(cur.disk(), more[si + 1] as int, hc, p));
                    }
                }
            } else {
                lemma_others_kept(pre, cur, o, h, lo, hi, i, p);
                assert(more[i] == kids[i]);
                assert(in_subtree(cur.disk(), more[i] as int, hc, p));
            }
        }
    }
}

/// Two neighbouring internal nodes below a sound node, one of which was
/// handed up with children that cover its tree, are covered by the nodes
/// written over the children of both.
pub proof fn lemma_pair_joined(
    pre: Pager,
    cur: Pager,
    post: Pager,
    o: int,
    h: nat,
    lo: Option<Key>,
    hi: Option<Key>,
    si: int,
    ci: int,
    jk: Seq<Key>,
    jc: Seq<usize>,
    jlo: Option<Key>,
    jhi: Option<Key>,
    cc: Seq<usize>,
    news: Seq<usize>,
    fq: Seq<usize>,
)
    requires
        h >= 2,
        subtree(pre.disk(), o, h, lo, hi),
        node_at(pre.disk(), o)->Some_0.kind is Internal,
        all_live(pre, o, h),
        grew(pre, cur),
        grew(cur, post),
        0 <= si,
        si + 1 < node_at(pre.disk(), o)->Some_0.kind->Internal_children.len(),
        ci == si || ci == si + 1,
        node_at(
            pre.disk(),
            node_at(pre.disk(), o)->Some_0.kind->Internal_children[2 * si + 1 - ci] as int,
        )->Some_0.kind is Internal,
        jc == if ci == si {
            cc + node_at(
                pre.disk(),
                node_at(pre.disk(), o)->Some_0.kind->Internal_children[2 * si + 1 - ci] as int,
            )->Some_0.kind->Internal_children
        } else {
            node_at(
                pre.disk(),
                node_at(pre.disk(), o)->Some_0.kind->Internal_children[2 * si + 1 - ci] as int,
            )->Some_0.kind->Internal_children + cc
        },
        ready(pre, cur, o, h, jk, jc, (h - 2) as nat, jlo, jhi, fq),
        covered(
            pre.disk(),
            node_at(pre.disk(), o)->Some_0.kind->Internal_children[ci] as int,
            (h - 1) as nat,
            cur.disk(),
            cc,
            (h - 2) as nat,
            fq,
        ),
        forall|p: int| #[trigger]
            in_any(post.disk(), jc, (h - 2) as nat, p) ==> in_any(
                post.disk(),
                news,
                (h - 1) as nat,
                p,
            ),
    ensures
        pair_covered(
            pre.disk(),
            node_at(pre.disk(), o)->Some_0.kind->Internal_children[si] as int,
            node_at(pre.disk(), o)->Some_0.kind->Internal_children[si + 1] as int,
            (h - 1) as nat,
            post.disk(),
            news,
            (h - 1) as nat,
            fq,
        ),
{
    let keys = node_at(pre.disk(), o)->Some_0.kind->Internal_keys;
    let kids = node_at(pre.disk(), o)->Some_0.kind->Internal_children;
    let c = kids[ci] as int;
    let xi = 2 * si + 1 - ci;
    let s = kids[xi] as int;
    let sc = node_at(pre.disk(), s)->Some_0.kind->Internal_children;
    let hc = (h - 1) as nat;
    let hk = (h - 2) as nat;
    lemma_children_stay(pre, cur, post, o, h, jk, jc, hk, jlo, jhi, fq);
    assert(subtree(pre.disk(), s, hc, child_lo(keys, lo, xi), child_hi(keys, hi, xi)));
    assert forall|q: int| #[trigger] in_subtree(pre.disk(), s, hc, q) implies live(pre, q) by {
        assert(in_subtree(pre.disk(), o, h, q));
    }
    assert forall|p: int|
        in_subtree(pre.disk(), kids[si] as int, hc, p) || in_subtree(
            pre.disk(),
            kids[si + 1] as int,
            hc,
            p,
        ) implies p == kids[si] || p == kids[si + 1] || fq.contains(p as usize) || #[trigger] in_any(
        post.disk(),
        news,
        hc,
        p,
    ) by {
        if p != c && p != s && !fq.contains(p as usize) {
            if in_subtree(pre.disk(), c, hc, p) {
                assert(in_any(cur.disk(), cc, hk, p));
                let i = choose|i: int|
                    0 <= i < cc.len() && in_subtree(cur.disk(), #[trigger] cc[i] as int, hk, p);
                if ci == si {
                    assert(jc[i] == cc[i]);
                    assert(in_subtree(cur.disk(), jc[i] as int, hk, p));
                } else {
                    assert(jc[sc.len() + i] == cc[i]);
                    assert(in_subtree(cur.disk(), jc[sc.len() + i] as int, hk, p));
                }
            } else {
                assert(in_subtree(pre.disk(), s, hc, p));
                let i = choose|i: int|
                    0 <= i < sc.len() && in_subtree(pre.disk(), #[trigger] sc[i] as int, hk, p);
                lemma_others_kept(
                    pre,
                    cur,
                    s,
                    hc,
                    child_lo(keys, lo, xi),
                    child_hi(keys, hi, xi),
                    i,
                    p,
                );
                if ci == si {
                    assert(jc[cc.len() + i] == sc[i]);
                    assert(in_subtree(cur.disk(), jc[cc.len() + i] as int, hk, p));
                } else {
                    assert(jc[i] == sc[i]);
                    assert(in_subtree(cur.disk(), jc[i] as int, hk, p));
                }
            }
            assert(in_any(cur.disk(), jc, hk, p));
            assert(in_any(post.disk(), jc, hk, p));
        }
    }
}

/// Whether every page of the tree of height `h` stored at `o` in `pre`,
/// but its root, is among the pages `fq` to give back or is a page of the
/// tree of height `h2` stored at `n` in `post`.
pub open spec fn accounted_but(
    pre: Disk,
    o: int,
    h: nat,
    post: Disk,
    n: int,
    h2: nat,
    fq: Seq<usize>,
) -> bool {
    forall|p: int| #[trigger]
        in_subtree(pre, o, h, p) ==> p == o || fq.contains(p as usize) || in_subtree(post, n, h2, p)
}

/// What lies below the children of a node lies below the node.
pub proof fn lemma_node_holds(disk: Disk, n: usize, kids: Seq<usize>, hk: nat)
    requires
        node_at(disk, n as int) is Some,
        node_at(disk, n as int)->Some_0.kind is Internal,
        node_at(disk, n as int)->Some_0.kind->Internal_children == kids,
    ensures
        forall|p: int| #[trigger]
            in_any(disk, kids, hk, p) ==> in_any(disk, seq![n], (hk + 1) as nat, p),
{
    let one = seq![n];
    assert forall|p: int| #[trigger] in_any(disk, kids, hk, p) implies in_any(
        disk,
        one,
        (hk + 1) as nat,
        p,
    ) by {
        let i = choose|i: int| 0 <= i < kids.len() && in_subtree(disk, #[trigger] kids[i] as int, hk, p);
        let hn = (hk + 1) as nat;
        assert((hn - 1) as nat == hk);
        assert(node_at(disk, n as int)->Some_0.kind->Internal_children[i] == kids[i]);
        assert(in_subtree(disk, kids[i] as int, (hn - 1) as nat, p));
        assert(in_subtree(disk, n as int, hn, p));
        assert(in_subtree(disk, one[0] as int, hn, p));
    }
}

/// What lies below children that two nodes share between them lies below
/// one of the two.
pub proof fn lemma_nodes_hold(disk: Disk, a: usize, b: usize, kids: Seq<usize>, cut: int, hk: nat)
    requires
        0 <= cut <= kids.len(),
        node_at(disk, a as int) is Some,
        node_at(disk, a as int)->Some_0.kind is Internal,
        node_at(disk, a as int)->Some_0.kind->Internal_children == kids.subrange(0, cut),
        node_at(disk, b as int) is Some,
        node_at(disk, b as int)->Some_0.kind is Internal,
        node_at(disk, b as int)->Some_0.kind->Internal_children == kids.subrange(
            cut,
            kids.len() as int,
        ),
    ensures
        forall|p: int| #[trigger]
            in_any(disk, kids, hk, p) ==> in_any(disk, seq![a, b], (hk + 1) as nat, p),
{
    let two = seq![a, b];
    let left = kids.subrange(0, cut);
    let right = kids.subrange(cut, kids.len() as int);
    assert forall|p: int| #[trigger] in_any(disk, kids, hk, p) implies in_any(
        disk,
        two,
        (hk + 1) as nat,
        p,
    ) by {
        let i = choose|i: int| 0 <= i < kids.len() && in_subtree(disk, #[trigger] kids[i] as int, hk, p);
        let hn = (hk + 1) as nat;
        assert((hn - 1) as nat == hk);
        if i < cut {
            assert(left[i] == kids[i]);
            assert(in_subtree(disk, left[i] as int, (hn - 1) as nat, p));
            assert(in_subtree(disk, a as int, hn, p));
            assert(in_subtree(disk, two[0] as int, hn, p));
        } else {
            assert(right[i - cut] == kids[i]);
            assert(in_subtree(disk, right[i - cut] as int, (hn - 1) as nat, p));
            assert(in_subtree(disk, b as int, hn, p));
            assert(in_subtree(disk, two[1] as int, hn, p));
        }
    }
}

} // verus!
