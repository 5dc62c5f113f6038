//! What holds where two neighbours below a node are replaced: by one tree
//! that is made of both, or by two between which their entries are shared out
//! anew.

use crate::key::{Key, key_lt, lemma_key_lt_transitive};
use crate::node::key_storable;
use crate::pager::{is_page, page_at, Pager};
use crate::tree::{
    above, all_live, below, child_hi, child_lo, children_ok, from_tree, grew, in_subtree,
    internal_at, lemma_ready_old, lemma_route_concat, lemma_route_range, lemma_route_remove,
    lemma_route_update, lemma_subtree_frame, lemma_subtree_grew, lemma_subtree_internal, live,
    lookup, lookup_under, node_at, pages, ready, route, separators_ok, settled, subtree,
};
use vstd::prelude::*;

verus! {

/// Whether the tree of height `ht` stored at `t` in `cur` is made of what
/// the two trees of height `hc` stored at `a` and `b` in `pre` were made of:
/// each of its pages is in use, and was a page of one of the two or not in
/// use; and no page of `fq`, the pages to give back, is a page of it.
pub open spec fn from_pair(
    pre: Pager,
    cur: Pager,
    a: int,
    b: int,
    hc: nat,
    t: int,
    ht: nat,
    fq: Seq<usize>,
) -> bool {
    forall|p: int| #[trigger]
        in_subtree(cur.disk(), t, ht, p) ==> live(cur, p) && (in_subtree(pre.disk(), a, hc, p)
            || in_subtree(pre.disk(), b, hc, p) || !live(pre, p)) && !fq.contains(p as usize)
}

/// Whether the children `si` and `si + 1` of the sound node stored at `o`
/// are about to be replaced: the node is sound and in use, pages were taken
/// only, and each page to give back is a page of one of the two children.
pub open spec fn pair_below(
    pre: Pager,
    cur: Pager,
    o: int,
    h: nat,
    lo: Option<Key>,
    hi: Option<Key>,
    si: int,
    fq: Seq<usize>,
) -> bool {
    let children = node_at(pre.disk(), o)->Some_0.kind->Internal_children;
    &&& subtree(pre.disk(), o, h, lo, hi)
    &&& node_at(pre.disk(), o)->Some_0.kind is Internal
    &&& all_live(pre, o, h)
    &&& grew(pre, cur)
    &&& 0 <= si
    &&& si + 1 < children.len()
    &&& forall|x: usize|
        fq.contains(x) ==> in_subtree(pre.disk(), children[si] as int, (h - 1) as nat, x as int)
            || in_subtree(pre.disk(), children[si + 1] as int, (h - 1) as nat, x as int)
}

/// The pages to give back when two children are replaced are pages of the
/// node below its root, and in use.
#[verifier::rlimit(60)]
pub proof fn lemma_pair_fq(
    pre: Pager,
    cur: Pager,
    o: int,
    h: nat,
    lo: Option<Key>,
    hi: Option<Key>,
    si: int,
    fq: Seq<usize>,
)
    requires
        pair_below(pre, cur, o, h, lo, hi, si, fq),
    ensures
        forall|x: usize|
            fq.contains(x) ==> live(pre, x as int) && in_subtree(pre.disk(), o, h, x as int) && x
                != o,
        from_tree(pre.disk(), o, h, fq),
        live(pre, o),
        h > 0,
{
    let children = node_at(pre.disk(), o)->Some_0.kind->Internal_children;
    let hc = (h - 1) as nat;
    lemma_subtree_internal(pre.disk(), o, h, lo, hi);
    assert(in_subtree(pre.disk(), o, h, o));
    assert(!in_subtree(pre.disk(), children[si] as int, hc, o));
    assert(!in_subtree(pre.disk(), children[si + 1] as int, hc, o));
    assert forall|x: usize| fq.contains(x) implies live(pre, x as int) && in_subtree(
        pre.disk(),
        o,
        h,
        x as int,
    ) && x != o by {
        if in_subtree(pre.disk(), children[si] as int, hc, x as int) {
            assert(in_subtree(pre.disk(), o, h, x as int));
        } else {
            assert(in_subtree(pre.disk(), children[si + 1] as int, hc, x as int));
            assert(in_subtree(pre.disk(), o, h, x as int));
        }
    }
    assert forall|i: int| 0 <= i < fq.len() implies in_subtree(
        pre.disk(),
        o,
        h,
        #[trigger] fq[i] as int,
    ) by {
        assert(fq.contains(fq[i]));
    }
}

/// A tree made of what two children were made of is settled below what
/// takes the place of their node, and no page of it is a page of another
/// child.
#[verifier::rlimit(60)]
pub proof fn lemma_pair_tree(
    pre: Pager,
    cur: Pager,
    o: int,
    h: nat,
    lo: Option<Key>,
    hi: Option<Key>,
    si: int,
    fq: Seq<usize>,
    t: int,
    j: int,
)
    requires
        pair_below(pre, cur, o, h, lo, hi, si, fq),
        from_pair(
            pre,
            cur,
            node_at(pre.disk(), o)->Some_0.kind->Internal_children[si] as int,
            node_at(pre.disk(), o)->Some_0.kind->Internal_children[si + 1] as int,
            (h - 1) as nat,
            t,
            (h - 1) as nat,
            fq,
        ),
        0 <= j < node_at(pre.disk(), o)->Some_0.kind->Internal_children.len(),
        j != si,
        j != si + 1,
    ensures
        settled(pre, cur, o, h, t, (h - 1) as nat, fq),
        pages(cur.disk(), t, (h - 1) as nat).disjoint(
            pages(
                pre.disk(),
                node_at(pre.disk(), o)->Some_0.kind->Internal_children[j] as int,
                (h - 1) as nat,
            ),
        ),
{
    lemma_pair_settled(pre, cur, o, h, lo, hi, si, fq, t);
    let children = node_at(pre.disk(), o)->Some_0.kind->Internal_children;
    let hc = (h - 1) as nat;
    let a = children[si] as int;
    let b = children[si + 1] as int;
    let co = children[j] as int;
    lemma_subtree_internal(pre.disk(), o, h, lo, hi);
    assert forall|p: int|
        !(pages(cur.disk(), t, hc).contains(p) && pages(pre.disk(), co, hc).contains(p)) by {
        if pages(cur.disk(), t, hc).contains(p) && pages(pre.disk(), co, hc).contains(p) {
            assert(in_subtree(cur.disk(), t, hc, p));
            assert(in_subtree(pre.disk(), co, hc, p));
            assert(in_subtree(pre.disk(), o, h, p));
            assert(live(pre, p));
            if in_subtree(pre.disk(), a, hc, p) {
                assert(pages(pre.disk(), a, hc).contains(p));
                if j < si {
                    assert(pages(pre.disk(), children[j] as int, hc).disjoint(
                        pages(pre.disk(), children[si] as int, hc),
                    ));
                } else {
                    assert(pages(pre.disk(), children[si] as int, hc).disjoint(
                        pages(pre.disk(), children[j] as int, hc),
                    ));
                }
            } else {
                assert(pages(pre.disk(), b, hc).contains(p));
                if j < si + 1 {
                    assert(pages(pre.disk(), children[j] as int, hc).disjoint(
                        pages(pre.disk(), children[si + 1] as int, hc),
                    ));
                } else {
                    assert(pages(pre.disk(), children[si + 1] as int, hc).disjoint(
                        pages(pre.disk(), children[j] as int, hc),
                    ));
                }
            }
        }
    }
}

/// A tree made of what two children were made of is settled below what
/// takes the place of their node.
pub proof fn lemma_pair_settled(
    pre: Pager,
    cur: Pager,
    o: int,
    h: nat,
    lo: Option<Key>,
    hi: Option<Key>,
    si: int,
    fq: Seq<usize>,
    t: int,
)
    requires
        pair_below(pre, cur, o, h, lo, hi, si, fq),
        from_pair(
            pre,
            cur,
            node_at(pre.disk(), o)->Some_0.kind->Internal_children[si] as int,
            node_at(pre.disk(), o)->Some_0.kind->Internal_children[si + 1] as int,
            (h - 1) as nat,
            t,
            (h - 1) as nat,
            fq,
        ),
    ensures
        settled(pre, cur, o, h, t, (h - 1) as nat, fq),
{
    let children = node_at(pre.disk(), o)->Some_0.kind->Internal_children;
    let hc = (h - 1) as nat;
    let a = children[si] as int;
    let b = children[si + 1] as int;
    lemma_subtree_internal(pre.disk(), o, h, lo, hi);
    assert(!in_subtree(pre.disk(), a, hc, o));
    assert(!in_subtree(pre.disk(), b, hc, o));
    assert forall|p: int| #[trigger] in_subtree(cur.disk(), t, hc, p) implies live(cur, p) && ((
    in_subtree(pre.disk(), o, h, p) && p != o) || !live(pre, p)) && !fq.contains(p as usize) by {
        if in_subtree(pre.disk(), a, hc, p) {
            assert(in_subtree(pre.disk(), o, h, p));
        }
        if in_subtree(pre.disk(), b, hc, p) {
            assert(in_subtree(pre.disk(), o, h, p));
        }
    }
}

/// A child of a sound node other than the children `si` and `si + 1`, left
/// as it was while pages were taken, is settled, where every page to give
/// back is a page of one of those two.
#[verifier::rlimit(60)]
pub proof fn lemma_pair_other(
    pre: Pager,
    cur: Pager,
    o: int,
    h: nat,
    lo: Option<Key>,
    hi: Option<Key>,
    si: int,
    fq: Seq<usize>,
    j: int,
)
    requires
        pair_below(pre, cur, o, h, lo, hi, si, fq),
        0 <= j < node_at(pre.disk(), o)->Some_0.kind->Internal_children.len(),
        j != si,
        j != si + 1,
    ensures
        subtree(
            cur.disk(),
            node_at(pre.disk(), o)->Some_0.kind->Internal_children[j] as int,
            (h - 1) as nat,
            child_lo(node_at(pre.disk(), o)->Some_0.kind->Internal_keys, lo, j),
            child_hi(node_at(pre.disk(), o)->Some_0.kind->Internal_keys, hi, j),
        ),
        settled(
            pre,
            cur,
            o,
            h,
            node_at(pre.disk(), o)->Some_0.kind->Internal_children[j] as int,
            (h - 1) as nat,
            fq,
        ),
        pages(
            cur.disk(),
            node_at(pre.disk(), o)->Some_0.kind->Internal_children[j] as int,
            (h - 1) as nat,
        ) == pages(
            pre.disk(),
            node_at(pre.disk(), o)->Some_0.kind->Internal_children[j] as int,
            (h - 1) as nat,
        ),
        forall|k: Key| #[trigger]
            lookup(
                cur.disk(),
                node_at(pre.disk(), o)->Some_0.kind->Internal_children[j] as int,
                (h - 1) as nat,
                k,
            ) == lookup(
                pre.disk(),
                node_at(pre.disk(), o)->Some_0.kind->Internal_children[j] as int,
                (h - 1) as nat,
                k,
            ),
{
    reveal(ready);
    let keys = node_at(pre.disk(), o)->Some_0.kind->Internal_keys;
    let children = node_at(pre.disk(), o)->Some_0.kind->Internal_children;
    let hc = (h - 1) as nat;
    let a = children[si] as int;
    let b = children[si + 1] as int;
    let cj = children[j] as int;
    lemma_ready_old(pre, cur, o, h, lo, hi, Seq::<usize>::empty());
    assert(settled(pre, cur, o, h, cj, hc, Seq::<usize>::empty()));
    assert(pages(cur.disk(), cj, hc) == pages(pre.disk(), cj, hc));
    lemma_subtree_internal(pre.disk(), o, h, lo, hi);
    assert(subtree(pre.disk(), cj, hc, child_lo(keys, lo, j), child_hi(keys, hi, j)));
    assert(all_live(pre, cj, hc)) by {
        assert forall|p: int| #[trigger] in_subtree(pre.disk(), cj, hc, p) implies live(pre, p) by {
            assert(in_subtree(pre.disk(), o, h, p));
        }
    }
    lemma_subtree_grew(pre, cur, cj, hc, child_lo(keys, lo, j), child_hi(keys, hi, j));
    assert forall|p: int| #[trigger] in_subtree(cur.disk(), cj, hc, p) implies live(cur, p) && ((
    in_subtree(pre.disk(), o, h, p) && p != o) || !live(pre, p)) && !fq.contains(p as usize) by {
        assert(pages(cur.disk(), cj, hc).contains(p));
        assert(pages(pre.disk(), cj, hc).contains(p));
        if fq.contains(p as usize) {
            assert(live(cur, p));
            assert(p as usize as int == p);
            if in_subtree(pre.disk(), a, hc, p) {
                assert(pages(pre.disk(), a, hc).contains(p));
                if j < si {
                    assert(pages(pre.disk(), children[j] as int, hc).disjoint(
                        pages(pre.disk(), children[si] as int, hc),
                    ));
                } else {
                    assert(pages(pre.disk(), children[si] as int, hc).disjoint(
                        pages(pre.disk(), children[j] as int, hc),
                    ));
                }
            } else {
                assert(pages(pre.disk(), b, hc).contains(p));
                if j < si + 1 {
                    assert(pages(pre.disk(), children[j] as int, hc).disjoint(
                        pages(pre.disk(), children[si + 1] as int, hc),
                    ));
                } else {
                    assert(pages(pre.disk(), children[si + 1] as int, hc).disjoint(
                        pages(pre.disk(), children[j] as int, hc),
                    ));
                }
            }
        }
    }
}

/// The old child that stands at the place `i` after the children `si` and
/// `si + 1` were replaced by one.
pub open spec fn place_after(si: int, i: int) -> int {
    if i < si {
        i
    } else {
        i + 1
    }
}

proof fn lemma_merge_separators(keys: Seq<Key>, lo: Option<Key>, hi: Option<Key>, si: int)
    requires
        separators_ok(keys, lo, hi),
        0 <= si < keys.len(),
    ensures
        separators_ok(keys.remove(si), lo, hi),
{
    let keys2 = keys.remove(si);
    lemma_route_remove(keys, si, keys[si]);
    assert forall|i: int| 0 <= i < keys2.len() implies above(lo, #[trigger] keys2[i]) && below(
        keys2[i],
        hi,
    ) && key_storable(keys2[i]) by {
        if i < si {
            assert(keys2[i] == keys[i]);
        } else {
            assert(keys2[i] == keys[i + 1]);
        }
    }
}

proof fn lemma_merge_each(
    pre: Pager,
    cur: Pager,
    o: int,
    h: nat,
    lo: Option<Key>,
    hi: Option<Key>,
    si: int,
    n: usize,
    fq: Seq<usize>,
    i: int,
)
    requires
        pair_below(pre, cur, o, h, lo, hi, si, fq),
        subtree(
            cur.disk(),
            n as int,
            (h - 1) as nat,
            child_lo(node_at(pre.disk(), o)->Some_0.kind->Internal_keys, lo, si),
            child_hi(node_at(pre.disk(), o)->Some_0.kind->Internal_keys, hi, si + 1),
        ),
        from_pair(
            pre,
            cur,
            node_at(pre.disk(), o)->Some_0.kind->Internal_children[si] as int,
            node_at(pre.disk(), o)->Some_0.kind->Internal_children[si + 1] as int,
            (h - 1) as nat,
            n as int,
            (h - 1) as nat,
            fq,
        ),
        0 <= i < node_at(pre.disk(), o)->Some_0.kind->Internal_children.len() - 1,
    ensures
        subtree(
            cur.disk(),
            node_at(pre.disk(), o)->Some_0.kind->Internal_children.remove(si + 1).update(si, n)[i] as int,
            (h - 1) as nat,
            child_lo(node_at(pre.disk(), o)->Some_0.kind->Internal_keys.remove(si), lo, i),
            child_hi(node_at(pre.disk(), o)->Some_0.kind->Internal_keys.remove(si), hi, i),
        ),
        settled(pre, cur, o, h, node_at(pre.disk(), o)->Some_0.kind->Internal_children.remove(si + 1).update(si, n)[i] as int, (h - 1) as nat, fq),
{
    let keys = node_at(pre.disk(), o)->Some_0.kind->Internal_keys;
    let children = node_at(pre.disk(), o)->Some_0.kind->Internal_children;
    let hc = (h - 1) as nat;
    lemma_subtree_internal(pre.disk(), o, h, lo, hi);
    let keys2 = keys.remove(si);
    let kids = children.remove(si + 1).update(si, n);
    if i == si {
        lemma_pair_settled(pre, cur, o, h, lo, hi, si, fq, n as int);
        assert(child_lo(keys2, lo, i) == child_lo(keys, lo, si));
        assert(child_hi(keys2, hi, i) == child_hi(keys, hi, si + 1));
    } else {
        let j = place_after(si, i);
        assert(kids[i] == children[j]);
        lemma_pair_other(pre, cur, o, h, lo, hi, si, fq, j);
        assert(child_lo(keys2, lo, i) == child_lo(keys, lo, j));
        assert(child_hi(keys2, hi, i) == child_hi(keys, hi, j));
    }
}

proof fn lemma_merge_apart(
    pre: Pager,
    cur: Pager,
    o: int,
    h: nat,
    lo: Option<Key>,
    hi: Option<Key>,
    si: int,
    n: usize,
    fq: Seq<usize>,
    i: int,
    j: int,
)
    requires
        pair_below(pre, cur, o, h, lo, hi, si, fq),
        subtree(
            cur.disk(),
            n as int,
            (h - 1) as nat,
            child_lo(node_at(pre.disk(), o)->Some_0.kind->Internal_keys, lo, si),
            child_hi(node_at(pre.disk(), o)->Some_0.kind->Internal_keys, hi, si + 1),
        ),
        from_pair(
            pre,
            cur,
            node_at(pre.disk(), o)->Some_0.kind->Internal_children[si] as int,
            node_at(pre.disk(), o)->Some_0.kind->Internal_children[si + 1] as int,
            (h - 1) as nat,
            n as int,
            (h - 1) as nat,
            fq,
        ),
        0 <= i < j < node_at(pre.disk(), o)->Some_0.kind->Internal_children.len() - 1,
    ensures
        pages(cur.disk(), node_at(pre.disk(), o)->Some_0.kind->Internal_children.remove(si + 1).update(si, n)[i] as int, (h - 1) as nat).disjoint(
            pages(cur.disk(), node_at(pre.disk(), o)->Some_0.kind->Internal_children.remove(si + 1).update(si, n)[j] as int, (h - 1) as nat),
        ),
{
    let keys = node_at(pre.disk(), o)->Some_0.kind->Internal_keys;
    let children = node_at(pre.disk(), o)->Some_0.kind->Internal_children;
    let hc = (h - 1) as nat;
    lemma_subtree_internal(pre.disk(), o, h, lo, hi);
    let kids = children.remove(si + 1).update(si, n);
    let oi = place_after(si, i);
    let oj = place_after(si, j);
    if i != si && j != si {
        assert(kids[i] == children[oi] && kids[j] == children[oj]);
        lemma_pair_other(pre, cur, o, h, lo, hi, si, fq, oi);
        lemma_pair_other(pre, cur, o, h, lo, hi, si, fq, oj);
        assert(pages(pre.disk(), children[oi] as int, hc).disjoint(
            pages(pre.disk(), children[oj] as int, hc),
        ));
    } else if i == si {
        assert(kids[j] == children[oj]);
        lemma_pair_other(pre, cur, o, h, lo, hi, si, fq, oj);
        lemma_pair_tree(pre, cur, o, h, lo, hi, si, fq, n as int, oj);
    } else {
        assert(kids[i] == children[oi]);
        lemma_pair_other(pre, cur, o, h, lo, hi, si, fq, oi);
        lemma_pair_tree(pre, cur, o, h, lo, hi, si, fq, n as int, oi);
    }
}

proof fn lemma_merge_lookup(
    pre: Pager,
    cur: Pager,
    o: int,
    h: nat,
    lo: Option<Key>,
    hi: Option<Key>,
    si: int,
    n: usize,
    fq: Seq<usize>,
    k: Key,
)
    requires
        pair_below(pre, cur, o, h, lo, hi, si, fq),
        subtree(
            cur.disk(),
            n as int,
            (h - 1) as nat,
            child_lo(node_at(pre.disk(), o)->Some_0.kind->Internal_keys, lo, si),
            child_hi(node_at(pre.disk(), o)->Some_0.kind->Internal_keys, hi, si + 1),
        ),
        from_pair(
            pre,
            cur,
            node_at(pre.disk(), o)->Some_0.kind->Internal_children[si] as int,
            node_at(pre.disk(), o)->Some_0.kind->Internal_children[si + 1] as int,
            (h - 1) as nat,
            n as int,
            (h - 1) as nat,
            fq,
        ),
    ensures
        lookup_under(cur.disk(), node_at(pre.disk(), o)->Some_0.kind->Internal_keys.remove(si), node_at(pre.disk(), o)->Some_0.kind->Internal_children.remove(si + 1).update(si, n), (h - 1) as nat, k) == if route(
            node_at(pre.disk(), o)->Some_0.kind->Internal_keys,
            k,
        ) == si || route(node_at(pre.disk(), o)->Some_0.kind->Internal_keys, k) == si + 1 {
            lookup(cur.disk(), n as int, (h - 1) as nat, k)
        } else {
            lookup(pre.disk(), o, h, k)
        },
{
    let keys = node_at(pre.disk(), o)->Some_0.kind->Internal_keys;
    let children = node_at(pre.disk(), o)->Some_0.kind->Internal_children;
    let hc = (h - 1) as nat;
    lemma_subtree_internal(pre.disk(), o, h, lo, hi);
    let keys2 = keys.remove(si);
    let kids = children.remove(si + 1).update(si, n);
    lemma_route_range(keys, k);
    lemma_route_remove(keys, si, k);
    let r = route(keys, k);
    let r2 = route(keys2, k);
    if r != si && r != si + 1 {
        assert(kids[r2] == children[r]);
        lemma_pair_other(pre, cur, o, h, lo, hi, si, fq, r);
        assert(lookup(pre.disk(), o, h, k) == lookup_under(pre.disk(), keys, children, hc, k));
    }
}

/// The separators and children of a sound node, with the children `si` and
/// `si + 1` replaced by one tree and the separator between them taken out,
/// are ready, and give each key what the new child gives it or what the old
/// node gave it.
#[verifier::rlimit(60)]
pub proof fn lemma_ready_merge(
    pre: Pager,
    cur: Pager,
    o: int,
    h: nat,
    lo: Option<Key>,
    hi: Option<Key>,
    si: int,
    n: usize,
    fq: Seq<usize>,
)
    requires
        pair_below(pre, cur, o, h, lo, hi, si, fq),
        subtree(
            cur.disk(),
            n as int,
            (h - 1) as nat,
            child_lo(node_at(pre.disk(), o)->Some_0.kind->Internal_keys, lo, si),
            child_hi(node_at(pre.disk(), o)->Some_0.kind->Internal_keys, hi, si + 1),
        ),
        from_pair(
            pre,
            cur,
            node_at(pre.disk(), o)->Some_0.kind->Internal_children[si] as int,
            node_at(pre.disk(), o)->Some_0.kind->Internal_children[si + 1] as int,
            (h - 1) as nat,
            n as int,
            (h - 1) as nat,
            fq,
        ),
    ensures
        ready(pre, cur, o, h, node_at(pre.disk(), o)->Some_0.kind->Internal_keys.remove(si), node_at(pre.disk(), o)->Some_0.kind->Internal_children.remove(si + 1).update(si, n), (h - 1) as nat, lo, hi, fq),
        forall|k: Key| #[trigger]
            lookup_under(cur.disk(), node_at(pre.disk(), o)->Some_0.kind->Internal_keys.remove(si), node_at(pre.disk(), o)->Some_0.kind->Internal_children.remove(si + 1).update(si, n), (h - 1) as nat, k) == if route(
                node_at(pre.disk(), o)->Some_0.kind->Internal_keys,
                k,
            ) == si || route(node_at(pre.disk(), o)->Some_0.kind->Internal_keys, k) == si + 1 {
                lookup(cur.disk(), n as int, (h - 1) as nat, k)
            } else {
                lookup(pre.disk(), o, h, k)
            },
{
    reveal(ready);
    let keys = node_at(pre.disk(), o)->Some_0.kind->Internal_keys;
    let children = node_at(pre.disk(), o)->Some_0.kind->Internal_children;
    let hc = (h - 1) as nat;
    lemma_subtree_internal(pre.disk(), o, h, lo, hi);
    let keys2 = keys.remove(si);
    let kids = children.remove(si + 1).update(si, n);
    lemma_merge_separators(keys, lo, hi, si);
    assert forall|i: int| 0 <= i < kids.len() implies {
        &&& subtree(
            cur.disk(),
            #[trigger] kids[i] as int,
            hc,
            child_lo(keys2, lo, i),
            child_hi(keys2, hi, i),
        )
        &&& settled(pre, cur, o, h, kids[i] as int, hc, fq)
    } by {
        lemma_merge_each(pre, cur, o, h, lo, hi, si, n, fq, i);
    }
    assert forall|i: int, j: int| 0 <= i < j < kids.len() implies pages(
        cur.disk(),
        #[trigger] kids[i] as int,
        hc,
    ).disjoint(pages(cur.disk(), #[trigger] kids[j] as int, hc)) by {
        lemma_merge_apart(pre, cur, o, h, lo, hi, si, n, fq, i, j);
    }
    assert forall|k: Key| #[trigger]
        lookup_under(cur.disk(), keys2, kids, hc, k) == if route(keys, k) == si || route(keys, k)
            == si + 1 {
            lookup(cur.disk(), n as int, hc, k)
        } else {
            lookup(pre.disk(), o, h, k)
        } by {
        lemma_merge_lookup(pre, cur, o, h, lo, hi, si, n, fq, k);
    }
}

proof fn lemma_redistribute_separators(
    keys: Seq<Key>,
    lo: Option<Key>,
    hi: Option<Key>,
    si: int,
    m: Key,
)
    requires
        separators_ok(keys, lo, hi),
        0 <= si < keys.len(),
        key_storable(m),
        above(child_lo(keys, lo, si), m),
        below(m, child_hi(keys, hi, si + 1)),
    ensures
        separators_ok(keys.update(si, m), lo, hi),
{
    let keys2 = keys.update(si, m);
    lemma_route_update(keys, si, m, m);
    assert forall|i: int| 0 <= i < keys2.len() implies above(lo, #[trigger] keys2[i]) && below(
        keys2[i],
        hi,
    ) && key_storable(keys2[i]) by {
        if i != si {
            assert(keys2[i] == keys[i]);
        } else {
            if si > 0 && lo is Some {
                assert(above(lo, keys[si - 1]));
                lemma_key_lt_transitive(lo->Some_0, keys[si - 1], m);
            }
            if si + 1 < keys.len() && hi is Some {
                assert(below(keys[si + 1], hi));
                lemma_key_lt_transitive(m, keys[si + 1], hi->Some_0);
            }
        }
    }
}

proof fn lemma_redistribute_each(
    pre: Pager,
    cur: Pager,
    o: int,
    h: nat,
    lo: Option<Key>,
    hi: Option<Key>,
    si: int,
    m: Key,
    a: usize,
    b: usize,
    fq: Seq<usize>,
    i: int,
)
    requires
        pair_below(pre, cur, o, h, lo, hi, si, fq),
        key_storable(m),
        above(child_lo(node_at(pre.disk(), o)->Some_0.kind->Internal_keys, lo, si), m),
        below(m, child_hi(node_at(pre.disk(), o)->Some_0.kind->Internal_keys, hi, si + 1)),
        subtree(
            cur.disk(),
            a as int,
            (h - 1) as nat,
            child_lo(node_at(pre.disk(), o)->Some_0.kind->Internal_keys, lo, si),
            Some(m),
        ),
        subtree(
            cur.disk(),
            b as int,
            (h - 1) as nat,
            Some(m),
            child_hi(node_at(pre.disk(), o)->Some_0.kind->Internal_keys, hi, si + 1),
        ),
        from_pair(
            pre,
            cur,
            node_at(pre.disk(), o)->Some_0.kind->Internal_children[si] as int,
            node_at(pre.disk(), o)->Some_0.kind->Internal_children[si + 1] as int,
            (h - 1) as nat,
            a as int,
            (h - 1) as nat,
            fq,
        ),
        from_pair(
            pre,
            cur,
            node_at(pre.disk(), o)->Some_0.kind->Internal_children[si] as int,
            node_at(pre.disk(), o)->Some_0.kind->Internal_children[si + 1] as int,
            (h - 1) as nat,
            b as int,
            (h - 1) as nat,
            fq,
        ),
        pages(cur.disk(), a as int, (h - 1) as nat).disjoint(
            pages(cur.disk(), b as int, (h - 1) as nat),
        ),
        0 <= i < node_at(pre.disk(), o)->Some_0.kind->Internal_children.len(),
    ensures
        subtree(
            cur.disk(),
            node_at(pre.disk(), o)->Some_0.kind->Internal_children.update(si, a).update(si + 1, b)[i] as int,
            (h - 1) as nat,
            child_lo(node_at(pre.disk(), o)->Some_0.kind->Internal_keys.update(si, m), lo, i),
            child_hi(node_at(pre.disk(), o)->Some_0.kind->Internal_keys.update(si, m), hi, i),
        ),
        settled(pre, cur, o, h, node_at(pre.disk(), o)->Some_0.kind->Internal_children.update(si, a).update(si + 1, b)[i] as int, (h - 1) as nat, fq),
{
    let keys = node_at(pre.disk(), o)->Some_0.kind->Internal_keys;
    let children = node_at(pre.disk(), o)->Some_0.kind->Internal_children;
    let hc = (h - 1) as nat;
    lemma_subtree_internal(pre.disk(), o, h, lo, hi);
    let keys2 = keys.update(si, m);
    let kids = children.update(si, a).update(si + 1, b);
    if i == si {
        lemma_pair_settled(pre, cur, o, h, lo, hi, si, fq, a as int);
    } else if i == si + 1 {
        lemma_pair_settled(pre, cur, o, h, lo, hi, si, fq, b as int);
    } else {
        assert(kids[i] == children[i]);
        lemma_pair_other(pre, cur, o, h, lo, hi, si, fq, i);
        assert(child_lo(keys2, lo, i) == child_lo(keys, lo, i));
        assert(child_hi(keys2, hi, i) == child_hi(keys, hi, i));
    }
}

#[verifier::rlimit(60)]
proof fn lemma_redistribute_apart(
    pre: Pager,
    cur: Pager,
    o: int,
    h: nat,
    lo: Option<Key>,
    hi: Option<Key>,
    si: int,
    m: Key,
    a: usize,
    b: usize,
    fq: Seq<usize>,
    i: int,
    j: int,
)
    requires
        pair_below(pre, cur, o, h, lo, hi, si, fq),
        key_storable(m),
        above(child_lo(node_at(pre.disk(), o)->Some_0.kind->Internal_keys, lo, si), m),
        below(m, child_hi(node_at(pre.disk(), o)->Some_0.kind->Internal_keys, hi, si + 1)),
        subtree(
            cur.disk(),
            a as int,
            (h - 1) as nat,
            child_lo(node_at(pre.disk(), o)->Some_0.kind->Internal_keys, lo, si),
            Some(m),
        ),
        subtree(
            cur.disk(),
            b as int,
            (h - 1) as nat,
            Some(m),
            child_hi(node_at(pre.disk(), o)->Some_0.kind->Internal_keys, hi, si + 1),
        ),
        from_pair(
            pre,
            cur,
            node_at(pre.disk(), o)->Some_0.kind->Internal_children[si] as int,
            node_at(pre.disk(), o)->Some_0.kind->Internal_children[si + 1] as int,
            (h - 1) as nat,
            a as int,
            (h - 1) as nat,
            fq,
        ),
        from_pair(
            pre,
            cur,
            node_at(pre.disk(), o)->Some_0.kind->Internal_children[si] as int,
            node_at(pre.disk(), o)->Some_0.kind->Internal_children[si + 1] as int,
            (h - 1) as nat,
            b as int,
            (h - 1) as nat,
            fq,
        ),
        pages(cur.disk(), a as int, (h - 1) as nat).disjoint(
            pages(cur.disk(), b as int, (h - 1) as nat),
        ),
        0 <= i < j < node_at(pre.disk(), o)->Some_0.kind->Internal_children.len(),
    ensures
        pages(cur.disk(), node_at(pre.disk(), o)->Some_0.kind->Internal_children.update(si, a).update(si + 1, b)[i] as int, (h - 1) as nat).disjoint(
            pages(cur.disk(), node_at(pre.disk(), o)->Some_0.kind->Internal_children.update(si, a).update(si + 1, b)[j] as int, (h - 1) as nat),
        ),
{
    let keys = node_at(pre.disk(), o)->Some_0.kind->Internal_keys;
    let children = node_at(pre.disk(), o)->Some_0.kind->Internal_children;
    let hc = (h - 1) as nat;
    lemma_subtree_internal(pre.disk(), o, h, lo, hi);
    let kids = children.update(si, a).update(si + 1, b);
    let new_i = i == si || i == si + 1;
    let new_j = j == si || j == si + 1;
    if new_i && new_j {
        assert(kids[i] == a && kids[j] == b);
    } else if !new_i && !new_j {
        assert(kids[i] == children[i] && kids[j] == children[j]);
        lemma_pair_other(pre, cur, o, h, lo, hi, si, fq, i);
        lemma_pair_other(pre, cur, o, h, lo, hi, si, fq, j);
        assert(pages(pre.disk(), children[i] as int, hc).disjoint(
            pages(pre.disk(), children[j] as int, hc),
        ));
    } else if new_i {
        assert(kids[j] == children[j]);
        lemma_pair_other(pre, cur, o, h, lo, hi, si, fq, j);
        lemma_pair_tree(pre, cur, o, h, lo, hi, si, fq, kids[i] as int, j);
    } else {
        assert(kids[i] == children[i]);
        lemma_pair_other(pre, cur, o, h, lo, hi, si, fq, i);
        lemma_pair_tree(pre, cur, o, h, lo, hi, si, fq, kids[j] as int, i);
    }
}

#[verifier::rlimit(60)]
proof fn lemma_redistribute_lookup(
    pre: Pager,
    cur: Pager,
    o: int,
    h: nat,
    lo: Option<Key>,
    hi: Option<Key>,
    si: int,
    m: Key,
    a: usize,
    b: usize,
    fq: Seq<usize>,
    k: Key,
)
    requires
        pair_below(pre, cur, o, h, lo, hi, si, fq),
        key_storable(m),
        above(child_lo(node_at(pre.disk(), o)->Some_0.kind->Internal_keys, lo, si), m),
        below(m, child_hi(node_at(pre.disk(), o)->Some_0.kind->Internal_keys, hi, si + 1)),
        subtree(
            cur.disk(),
            a as int,
            (h - 1) as nat,
            child_lo(node_at(pre.disk(), o)->Some_0.kind->Internal_keys, lo, si),
            Some(m),
        ),
        subtree(
            cur.disk(),
            b as int,
            (h - 1) as nat,
            Some(m),
            child_hi(node_at(pre.disk(), o)->Some_0.kind->Internal_keys, hi, si + 1),
        ),
        from_pair(
            pre,
            cur,
            node_at(pre.disk(), o)->Some_0.kind->Internal_children[si] as int,
            node_at(pre.disk(), o)->Some_0.kind->Internal_children[si + 1] as int,
            (h - 1) as nat,
            a as int,
            (h - 1) as nat,
            fq,
        ),
        from_pair(
            pre,
            cur,
            node_at(pre.disk(), o)->Some_0.kind->Internal_children[si] as int,
            node_at(pre.disk(), o)->Some_0.kind->Internal_children[si + 1] as int,
            (h - 1) as nat,
            b as int,
            (h - 1) as nat,
            fq,
        ),
        pages(cur.disk(), a as int, (h - 1) as nat).disjoint(
            pages(cur.disk(), b as int, (h - 1) as nat),
        ),
    ensures
        lookup_under(cur.disk(), node_at(pre.disk(), o)->Some_0.kind->Internal_keys.update(si, m), node_at(pre.disk(), o)->Some_0.kind->Internal_children.update(si, a).update(si + 1, b), (h - 1) as nat, k) == if route(
            node_at(pre.disk(), o)->Some_0.kind->Internal_keys,
            k,
        ) == si || route(node_at(pre.disk(), o)->Some_0.kind->Internal_keys, k) == si + 1 {
            if key_lt(k, m) {
                lookup(cur.disk(), a as int, (h - 1) as nat, k)
            } else {
                lookup(cur.disk(), b as int, (h - 1) as nat, k)
            }
        } else {
            lookup(pre.disk(), o, h, k)
        },
{
    let keys = node_at(pre.disk(), o)->Some_0.kind->Internal_keys;
    let children = node_at(pre.disk(), o)->Some_0.kind->Internal_children;
    let hc = (h - 1) as nat;
    lemma_subtree_internal(pre.disk(), o, h, lo, hi);
    let keys2 = keys.update(si, m);
    let kids = children.update(si, a).update(si + 1, b);
    lemma_route_range(keys, k);
    lemma_route_update(keys, si, m, k);
    let r = route(keys, k);
    let r2 = route(keys2, k);
    if r != si && r != si + 1 {
        assert(kids[r2] == children[r]);
        lemma_pair_other(pre, cur, o, h, lo, hi, si, fq, r);
        assert(lookup(pre.disk(), o, h, k) == lookup_under(pre.disk(), keys, children, hc, k));
    }
}

/// The separators and children of a sound node, with the children `si` and
/// `si + 1` replaced by two trees and the separator between them by the key
/// `m` that parts the two, are ready, and give each key what the new children
/// give it or what the old node gave it.
#[verifier::rlimit(60)]
pub proof fn lemma_ready_redistribute(
    pre: Pager,
    cur: Pager,
    o: int,
    h: nat,
    lo: Option<Key>,
    hi: Option<Key>,
    si: int,
    m: Key,
    a: usize,
    b: usize,
    fq: Seq<usize>,
)
    requires
        pair_below(pre, cur, o, h, lo, hi, si, fq),
        key_storable(m),
        above(child_lo(node_at(pre.disk(), o)->Some_0.kind->Internal_keys, lo, si), m),
        below(m, child_hi(node_at(pre.disk(), o)->Some_0.kind->Internal_keys, hi, si + 1)),
        subtree(
            cur.disk(),
            a as int,
            (h - 1) as nat,
            child_lo(node_at(pre.disk(), o)->Some_0.kind->Internal_keys, lo, si),
            Some(m),
        ),
        subtree(
            cur.disk(),
            b as int,
            (h - 1) as nat,
            Some(m),
            child_hi(node_at(pre.disk(), o)->Some_0.kind->Internal_keys, hi, si + 1),
        ),
        from_pair(
            pre,
            cur,
            node_at(pre.disk(), o)->Some_0.kind->Internal_children[si] as int,
            node_at(pre.disk(), o)->Some_0.kind->Internal_children[si + 1] as int,
            (h - 1) as nat,
            a as int,
            (h - 1) as nat,
            fq,
        ),
        from_pair(
            pre,
            cur,
            node_at(pre.disk(), o)->Some_0.kind->Internal_children[si] as int,
            node_at(pre.disk(), o)->Some_0.kind->Internal_children[si + 1] as int,
            (h - 1) as nat,
            b as int,
            (h - 1) as nat,
            fq,
        ),
        pages(cur.disk(), a as int, (h - 1) as nat).disjoint(
            pages(cur.disk(), b as int, (h - 1) as nat),
        ),
    ensures
        ready(pre, cur, o, h, node_at(pre.disk(), o)->Some_0.kind->Internal_keys.update(si, m), node_at(pre.disk(), o)->Some_0.kind->Internal_children.update(si, a).update(si + 1, b), (h - 1) as nat, lo, hi, fq),
        forall|k: Key| #[trigger]
            lookup_under(cur.disk(), node_at(pre.disk(), o)->Some_0.kind->Internal_keys.update(si, m), node_at(pre.disk(), o)->Some_0.kind->Internal_children.update(si, a).update(si + 1, b), (h - 1) as nat, k) == if route(
                node_at(pre.disk(), o)->Some_0.kind->Internal_keys,
                k,
            ) == si || route(node_at(pre.disk(), o)->Some_0.kind->Internal_keys, k) == si + 1 {
                if key_lt(k, m) {
                    lookup(cur.disk(), a as int, (h - 1) as nat, k)
                } else {
                    lookup(cur.disk(), b as int, (h - 1) as nat, k)
                }
            } else {
                lookup(pre.disk(), o, h, k)
            },
{
    reveal(ready);
    let keys = node_at(pre.disk(), o)->Some_0.kind->Internal_keys;
    let children = node_at(pre.disk(), o)->Some_0.kind->Internal_children;
    let hc = (h - 1) as nat;
    lemma_subtree_internal(pre.disk(), o, h, lo, hi);
    let keys2 = keys.update(si, m);
    let kids = children.update(si, a).update(si + 1, b);
    lemma_redistribute_separators(keys, lo, hi, si, m);
    assert forall|i: int| 0 <= i < kids.len() implies {
        &&& subtree(
            cur.disk(),
            #[trigger] kids[i] as int,
            hc,
            child_lo(keys2, lo, i),
            child_hi(keys2, hi, i),
        )
        &&& settled(pre, cur, o, h, kids[i] as int, hc, fq)
    } by {
        lemma_redistribute_each(pre, cur, o, h, lo, hi, si, m, a, b, fq, i);
    }
    assert forall|i: int, j: int| 0 <= i < j < kids.len() implies pages(
        cur.disk(),
        #[trigger] kids[i] as int,
        hc,
    ).disjoint(pages(cur.disk(), #[trigger] kids[j] as int, hc)) by {
        lemma_redistribute_apart(pre, cur, o, h, lo, hi, si, m, a, b, fq, i, j);
    }
    assert forall|k: Key| #[trigger]
        lookup_under(cur.disk(), keys2, kids, hc, k) == if route(keys, k) == si || route(keys, k)
            == si + 1 {
            if key_lt(k, m) {
                lookup(cur.disk(), a as int, hc, k)
            } else {
                lookup(cur.disk(), b as int, hc, k)
            }
        } else {
            lookup(pre.disk(), o, h, k)
        } by {
        lemma_redistribute_lookup(pre, cur, o, h, lo, hi, si, m, a, b, fq, k);
    }
}

/// Whether the tree of height `ht` stored at `t` in `cur` can stand in or
/// below a tree that takes the place of the trees stored at `a` and `b`: it
/// is made of what the two were made of, and holds neither of their roots.
pub open spec fn kept(
    pre: Pager,
    cur: Pager,
    a: int,
    b: int,
    hc: nat,
    t: int,
    ht: nat,
    fq: Seq<usize>,
) -> bool {
    &&& from_pair(pre, cur, a, b, hc, t, ht, fq)
    &&& !in_subtree(cur.disk(), t, ht, a)
    &&& !in_subtree(cur.disk(), t, ht, b)
}

/// A tree that is settled below the child `ci`, one of the children `si`
/// and `si + 1` of a sound node, is kept for the two.
#[verifier::rlimit(60)]
pub proof fn lemma_settled_kept(
    pre: Pager,
    cur: Pager,
    o: int,
    h: nat,
    lo: Option<Key>,
    hi: Option<Key>,
    si: int,
    ci: int,
    fq: Seq<usize>,
    t: int,
    ht: nat,
)
    requires
        pair_below(pre, cur, o, h, lo, hi, si, fq),
        ci == si || ci == si + 1,
        settled(
            pre,
            cur,
            node_at(pre.disk(), o)->Some_0.kind->Internal_children[ci] as int,
            (h - 1) as nat,
            t,
            ht,
            fq,
        ),
    ensures
        kept(
            pre,
            cur,
            node_at(pre.disk(), o)->Some_0.kind->Internal_children[si] as int,
            node_at(pre.disk(), o)->Some_0.kind->Internal_children[si + 1] as int,
            (h - 1) as nat,
            t,
            ht,
            fq,
        ),
        settled(pre, cur, o, h, t, ht, fq),
{
    let children = node_at(pre.disk(), o)->Some_0.kind->Internal_children;
    let hc = (h - 1) as nat;
    let a = children[si] as int;
    let b = children[si + 1] as int;
    let c = children[ci] as int;
    lemma_subtree_internal(pre.disk(), o, h, lo, hi);
    assert(in_subtree(pre.disk(), a, hc, a));
    assert(in_subtree(pre.disk(), b, hc, b));
    assert(in_subtree(pre.disk(), o, h, a));
    assert(in_subtree(pre.disk(), o, h, b));
    assert(pages(pre.disk(), children[si] as int, hc).disjoint(
        pages(pre.disk(), children[si + 1] as int, hc),
    ));
    assert(pages(pre.disk(), a, hc).contains(a));
    assert(pages(pre.disk(), b, hc).contains(b));
    assert(!in_subtree(pre.disk(), a, hc, o));
    assert(!in_subtree(pre.disk(), b, hc, o));
    assert(in_subtree(pre.disk(), o, h, o));
    assert(live(pre, a) && live(pre, b) && live(pre, o));
    assert(c == a || c == b);
    assert forall|p: int| #[trigger] in_subtree(cur.disk(), t, ht, p) implies (p != a && p != b
        && p != o && (in_subtree(pre.disk(), a, hc, p) || in_subtree(pre.disk(), b, hc, p)
        || !live(pre, p)) && (in_subtree(pre.disk(), o, h, p) || !live(pre, p))) by {
        if live(pre, p) {
            assert(in_subtree(pre.disk(), c, hc, p) && p != c);
            assert(pages(pre.disk(), c, hc).contains(p));
            if c == a {
                assert(in_subtree(pre.disk(), o, h, p));
                assert(!pages(pre.disk(), b, hc).contains(p));
            } else {
                assert(in_subtree(pre.disk(), o, h, p));
                assert(!pages(pre.disk(), a, hc).contains(p));
            }
        }
    }
}

/// The separators and children that are ready below the child `ci`, one of
/// the children `si` and `si + 1` of a sound node, are ready below what
/// takes the place of the node, and each of the children is kept for the
/// two.
pub proof fn lemma_ready_kept(
    pre: Pager,
    cur: Pager,
    o: int,
    h: nat,
    lo: Option<Key>,
    hi: Option<Key>,
    si: int,
    ci: int,
    fq: Seq<usize>,
    keys: Seq<Key>,
    kids: Seq<usize>,
    hk: nat,
    klo: Option<Key>,
    khi: Option<Key>,
)
    requires
        pair_below(pre, cur, o, h, lo, hi, si, fq),
        ci == si || ci == si + 1,
        ready(
            pre,
            cur,
            node_at(pre.disk(), o)->Some_0.kind->Internal_children[ci] as int,
            (h - 1) as nat,
            keys,
            kids,
            hk,
            klo,
            khi,
            fq,
        ),
    ensures
        ready(pre, cur, o, h, keys, kids, hk, klo, khi, fq),
        forall|i: int|
            0 <= i < kids.len() ==> kept(
                pre,
                cur,
                node_at(pre.disk(), o)->Some_0.kind->Internal_children[si] as int,
                node_at(pre.disk(), o)->Some_0.kind->Internal_children[si + 1] as int,
                (h - 1) as nat,
                #[trigger] kids[i] as int,
                hk,
                fq,
            ),
{
    reveal(ready);
    let children = node_at(pre.disk(), o)->Some_0.kind->Internal_children;
    assert forall|i: int| 0 <= i < kids.len() implies kept(
        pre,
        cur,
        children[si] as int,
        children[si + 1] as int,
        (h - 1) as nat,
        #[trigger] kids[i] as int,
        hk,
        fq,
    ) && settled(pre, cur, o, h, kids[i] as int, hk, fq) by {
        lemma_settled_kept(pre, cur, o, h, lo, hi, si, ci, fq, kids[i] as int, hk);
    }
}

/// An internal node written to a page that was not in use, over children
/// that are kept for two trees, is kept for the two.
#[verifier::rlimit(60)]
pub proof fn lemma_node_kept(
    pre: Pager,
    mid: Pager,
    post: Pager,
    a: int,
    b: int,
    hc: nat,
    n: int,
    hn: nat,
    keys: Seq<Key>,
    kids: Seq<usize>,
    lo: Option<Key>,
    hi: Option<Key>,
    fq: Seq<usize>,
)
    requires
        hn > 0,
        live(pre, a),
        live(pre, b),
        grew(pre, mid),
        grew(mid, post),
        !live(mid, n),
        live(post, n),
        internal_at(post.disk(), n, keys, kids),
        children_ok(mid.disk(), keys, kids, (hn - 1) as nat, lo, hi),
        forall|i: int|
            0 <= i < kids.len() ==> kept(pre, mid, a, b, hc, #[trigger] kids[i] as int, (hn - 1) as nat, fq),
        forall|x: usize| fq.contains(x) ==> live(pre, x as int),
    ensures
        kept(pre, post, a, b, hc, n, hn, fq),
{
    let hk = (hn - 1) as nat;
    let stored = node_at(post.disk(), n)->Some_0.kind->Internal_children;
    assert(stored == kids);
    assert(!live(pre, n)) by {
        if live(pre, n) {
            assert(live(mid, n));
        }
    }
    assert forall|i: int| 0 <= i < kids.len() implies pages(
        post.disk(),
        #[trigger] kids[i] as int,
        hk,
    ) == pages(mid.disk(), kids[i] as int, hk) by {
        let c = kids[i] as int;
        assert(kept(pre, mid, a, b, hc, c, hk, fq));
        assert forall|p: int| #[trigger] in_subtree(mid.disk(), c, hk, p) implies is_page(
            post.disk(),
            p,
        ) && page_at(post.disk(), p) == page_at(mid.disk(), p) by {
            assert(live(mid, p));
        }
        lemma_subtree_frame(mid.disk(), post.disk(), c, hk, child_lo(keys, lo, i), child_hi(keys, hi, i));
    }
    assert forall|p: int| #[trigger] in_subtree(post.disk(), n, hn, p) implies live(post, p) && (
    in_subtree(pre.disk(), a, hc, p) || in_subtree(pre.disk(), b, hc, p) || !live(pre, p))
        && !fq.contains(p as usize) && p != a && p != b by {
        if p != n {
            let i = choose|i: int|
                0 <= i < stored.len() && in_subtree(post.disk(), #[trigger] stored[i] as int, hk, p);
            let c = kids[i] as int;
            assert(pages(post.disk(), c, hk).contains(p));
            assert(pages(mid.disk(), c, hk).contains(p));
            assert(in_subtree(mid.disk(), c, hk, p));
            assert(kept(pre, mid, a, b, hc, c, hk, fq));
            assert(live(mid, p));
        } else {
            assert(post.wf());
            assert(n as usize as int == n);
        }
    }
}

/// Of two neighbours below a sound node, the children of the one as a
/// deletion left them share no page with the children of the other, which
/// are as they were.
pub proof fn lemma_kept_apart(
    pre: Pager,
    cur: Pager,
    o: int,
    h: nat,
    lo: Option<Key>,
    hi: Option<Key>,
    si: int,
    ci: int,
    fq: Seq<usize>,
    t: int,
    u: int,
    hk: nat,
)
    requires
        pair_below(pre, cur, o, h, lo, hi, si, fq),
        ci == si || ci == si + 1,
        settled(
            pre,
            cur,
            node_at(pre.disk(), o)->Some_0.kind->Internal_children[ci] as int,
            (h - 1) as nat,
            t,
            hk,
            fq,
        ),
        forall|p: int| #[trigger]
            in_subtree(cur.disk(), u, hk, p) ==> live(pre, p) && in_subtree(
                pre.disk(),
                node_at(pre.disk(), o)->Some_0.kind->Internal_children[2 * si + 1 - ci] as int,
                (h - 1) as nat,
                p,
            ),
    ensures
        pages(cur.disk(), t, hk).disjoint(pages(cur.disk(), u, hk)),
{
    let children = node_at(pre.disk(), o)->Some_0.kind->Internal_children;
    let hc = (h - 1) as nat;
    let c = children[ci] as int;
    let s = children[2 * si + 1 - ci] as int;
    lemma_subtree_internal(pre.disk(), o, h, lo, hi);
    assert(pages(pre.disk(), children[si] as int, hc).disjoint(
        pages(pre.disk(), children[si + 1] as int, hc),
    ));
    assert forall|p: int|
        !(pages(cur.disk(), t, hk).contains(p) && pages(cur.disk(), u, hk).contains(p)) by {
        if pages(cur.disk(), t, hk).contains(p) && pages(cur.disk(), u, hk).contains(p) {
            assert(in_subtree(cur.disk(), t, hk, p));
            assert(in_subtree(cur.disk(), u, hk, p));
            assert(live(pre, p));
            assert(pages(pre.disk(), c, hc).contains(p));
            assert(pages(pre.disk(), s, hc).contains(p));
        }
    }
}

/// Separators and children that are ready before the key `sep`, followed by
/// `sep` and by separators and children that are ready from `sep` on, where
/// no page belongs to a child of either, are ready, and give each key what
/// its side gives it.
#[verifier::rlimit(60)]
pub proof fn lemma_ready_concat(
    pre: Pager,
    cur: Pager,
    o: int,
    h: nat,
    lk: Seq<Key>,
    lc: Seq<usize>,
    sep: Key,
    rk: Seq<Key>,
    rc: Seq<usize>,
    hk: nat,
    lo: Option<Key>,
    hi: Option<Key>,
    fq: Seq<usize>,
)
    requires
        ready(pre, cur, o, h, lk, lc, hk, lo, Some(sep), fq),
        ready(pre, cur, o, h, rk, rc, hk, Some(sep), hi, fq),
        key_storable(sep),
        above(lo, sep),
        below(sep, hi),
        forall|i: int, j: int|
            0 <= i < lc.len() && 0 <= j < rc.len() ==> pages(
                cur.disk(),
                #[trigger] lc[i] as int,
                hk,
            ).disjoint(pages(cur.disk(), #[trigger] rc[j] as int, hk)),
    ensures
        ready(pre, cur, o, h, lk + seq![sep] + rk, lc + rc, hk, lo, hi, fq),
        forall|k: Key| #[trigger]
            lookup_under(cur.disk(), lk + seq![sep] + rk, lc + rc, hk, k) == if key_lt(k, sep) {
                lookup_under(cur.disk(), lk, lc, hk, k)
            } else {
                lookup_under(cur.disk(), rk, rc, hk, k)
            },
{
    reveal(ready);
    let keys = lk + seq![sep] + rk;
    let kids = lc + rc;
    let n = lk.len() as int;
    lemma_concat_separators(lk, sep, rk, lo, hi);
    assert forall|i: int| 0 <= i < kids.len() implies {
        &&& subtree(
            cur.disk(),
            #[trigger] kids[i] as int,
            hk,
            child_lo(keys, lo, i),
            child_hi(keys, hi, i),
        )
        &&& settled(pre, cur, o, h, kids[i] as int, hk, fq)
    } by {
        if i <= n {
            assert(kids[i] == lc[i]);
            if i > 0 {
                assert(keys[i - 1] == lk[i - 1]);
            }
            if i < n {
                assert(keys[i] == lk[i]);
            } else {
                assert(keys[i] == sep);
            }
            assert(child_lo(keys, lo, i) == child_lo(lk, lo, i));
            assert(child_hi(keys, hi, i) == child_hi(lk, Some(sep), i));
        } else {
            let j = i - n - 1;
            assert(kids[i] == rc[j]);
            if j > 0 {
                assert(keys[i - 1] == rk[j - 1]);
            } else {
                assert(keys[i - 1] == sep);
            }
            if j < rk.len() {
                assert(keys[i] == rk[j]);
            }
            assert(child_lo(keys, lo, i) == child_lo(rk, Some(sep), j));
            assert(child_hi(keys, hi, i) == child_hi(rk, hi, j));
        }
    }
    assert forall|i: int, j: int| 0 <= i < j < kids.len() implies pages(
        cur.disk(),
        #[trigger] kids[i] as int,
        hk,
    ).disjoint(pages(cur.disk(), #[trigger] kids[j] as int, hk)) by {
        if j <= n {
            assert(kids[i] == lc[i] && kids[j] == lc[j]);
            assert(pages(cur.disk(), lc[i] as int, hk).disjoint(pages(cur.disk(), lc[j] as int, hk)));
        } else if i > n {
            assert(kids[i] == rc[i - n - 1] && kids[j] == rc[j - n - 1]);
            assert(pages(cur.disk(), rc[i - n - 1] as int, hk).disjoint(
                pages(cur.disk(), rc[j - n - 1] as int, hk),
            ));
        } else {
            assert(kids[i] == lc[i] && kids[j] == rc[j - n - 1]);
            assert(pages(cur.disk(), lc[i] as int, hk).disjoint(
                pages(cur.disk(), rc[j - n - 1] as int, hk),
            ));
        }
    }
    assert forall|k: Key| #[trigger]
        lookup_under(cur.disk(), keys, kids, hk, k) == if key_lt(k, sep) {
            lookup_under(cur.disk(), lk, lc, hk, k)
        } else {
            lookup_under(cur.disk(), rk, rc, hk, k)
        } by {
        lemma_route_concat(lk, sep, rk, k);
        lemma_route_range(lk, k);
        lemma_route_range(rk, k);
        if key_lt(k, sep) {
            assert(kids[route(lk, k)] == lc[route(lk, k)]);
        } else {
            assert(kids[n + 1 + route(rk, k)] == rc[route(rk, k)]);
        }
    }
}

/// Separators that are sound before `sep`, then `sep`, then separators that
/// are sound after it, are sound.
#[verifier::rlimit(60)]
pub proof fn lemma_concat_separators(
    lk: Seq<Key>,
    sep: Key,
    rk: Seq<Key>,
    lo: Option<Key>,
    hi: Option<Key>,
)
    requires
        separators_ok(lk, lo, Some(sep)),
        separators_ok(rk, Some(sep), hi),
        key_storable(sep),
        above(lo, sep),
        below(sep, hi),
    ensures
        separators_ok(lk + seq![sep] + rk, lo, hi),
{
    let keys = lk + seq![sep] + rk;
    let n = lk.len() as int;
    assert forall|i: int, j: int| 0 <= i < j < keys.len() implies key_lt(
        #[trigger] keys[i],
        #[trigger] keys[j],
    ) by {
        if j < n {
            assert(keys[i] == lk[i] && keys[j] == lk[j]);
        } else if j == n {
            assert(keys[i] == lk[i]);
            assert(below(lk[i], Some(sep)));
        } else if i > n {
            assert(keys[i] == rk[i - n - 1] && keys[j] == rk[j - n - 1]);
        } else if i == n {
            assert(keys[j] == rk[j - n - 1]);
            assert(above(Some(sep), rk[j - n - 1]));
        } else {
            assert(keys[i] == lk[i] && keys[j] == rk[j - n - 1]);
            assert(below(lk[i], Some(sep)));
            assert(above(Some(sep), rk[j - n - 1]));
            lemma_key_lt_transitive(lk[i], sep, rk[j - n - 1]);
        }
    }
    assert forall|i: int| 0 <= i < keys.len() implies above(lo, #[trigger] keys[i]) && below(
        keys[i],
        hi,
    ) && key_storable(keys[i]) by {
        if i < n {
            assert(keys[i] == lk[i]);
            assert(below(lk[i], Some(sep)));
            if hi is Some {
                lemma_key_lt_transitive(lk[i], sep, hi->Some_0);
            }
        } else if i > n {
            assert(keys[i] == rk[i - n - 1]);
            assert(above(Some(sep), rk[i - n - 1]));
            if lo is Some {
                lemma_key_lt_transitive(lo->Some_0, sep, rk[i - n - 1]);
            }
        }
    }
}

} // verus!
