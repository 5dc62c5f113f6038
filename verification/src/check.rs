//! Finding out whether a storage holds a sound index.

use crate::btree::{BTree, read_node_at, root_of, sound};
use crate::key::{
    Key, key_lt, key_of, KeyOrder, keys_sorted, lemma_key_lt_transitive, lemma_key_trichotomy,
    str_order,
};
use crate::node::{keys_view, KeyValuePair, KindView, NodeKind, offsets_view, pairs_view};
use crate::page_layout::PAGE_SIZE;
use crate::pager::{Disk, free_chain, FreeQueue, is_page, next_free, Offset, page_at, Pager};
use crate::tree::{
    above, at_or_above, below, child_hi, child_lo, in_subtree, lemma_subtree_pages, live, node_at,
    pages, pairs_sorted, space_at, subtree,
};
use vstd::prelude::*;

verus! {

/// Walks the free list of a pager and gives its offsets, in the order of the
/// list, where the pager is sound; nothing where it is not.
pub fn free_list_of(pager: &Pager) -> (r: Option<Vec<usize>>)
    ensures
        r is Some ==> pager.wf() && pager.free_list() == Some(ints_of(r->Some_0@)),
        r is None ==> !pager.wf(),
{
    let count = pager.pages.len();
    if count == 0 || count > usize::MAX / PAGE_SIZE || pager.curser != count * PAGE_SIZE {
        return None;
    }
    let mut current: usize = match pager.config.first_free_page {
        Some(first) => {
            if first.0 == 0 {
                return None;
            }
            first.0
        },
        None => 0,
    };
    let ghost disk = pager.disk();
    let ghost head = current as int;
    let mut list: Vec<usize> = Vec::new();
    proof {
        assert(ints_of(list@) =~= Seq::<int>::empty());
        assert(Seq::<int>::empty() + free_chain(disk, head)->Some_0 =~= free_chain(disk, head)->Some_0);
    }
    while current != 0
        invariant
            disk == pager.disk(),
            head == pager.head(),
            count == pager.pages@.len(),
            count <= usize::MAX / PAGE_SIZE,
            pager.pages@.len() >= 1,
            pager.curser == pager.pages@.len() * PAGE_SIZE,
            pager.config.first_free_page != Some(Offset(0)),
            free_chain(disk, head) is Some <==> free_chain(disk, current as int) is Some,
            free_chain(disk, head) is Some ==> free_chain(disk, head)->Some_0 == ints_of(list@)
                + free_chain(disk, current as int)->Some_0,
        decreases
                if current == 0 {
                    0
                } else {
                    disk.len() * PAGE_SIZE - current + 1
                },
    {
        if current % PAGE_SIZE != 0 || current / PAGE_SIZE >= count {
            return None;
        }
        let page = pager.pages[current / PAGE_SIZE];
        let word = match page.get_usize_from_offset(0) {
            Ok(w) => w,
            Err(_) => {
                proof {
                    assert(page@ == page_at(disk, current as int));
                    assert(next_free(disk, current as int) > usize::MAX);
                }
                return None;
            },
        };
        proof {
            assert(page@ == page_at(disk, current as int));
            assert(word == next_free(disk, current as int));
        }
        if word != 0 && (word <= current || word % PAGE_SIZE != 0 || word / PAGE_SIZE >= count) {
            return None;
        }
        let ghost before = ints_of(list@);
        list.push(current);
        proof {
            assert(ints_of(list@) =~= before.push(current as int));
            if word != 0 {
                assert(is_page(disk, word as int));
                if free_chain(disk, word as int) is Some {
                    assert(before + (seq![current as int] + free_chain(disk, word as int)->Some_0)
                        =~= before.push(current as int) + free_chain(disk, word as int)->Some_0);
                }
            } else {
                assert(before + seq![current as int] =~= before.push(current as int)
                    + Seq::<int>::empty());
            }
        }
        current = word;
    }
    proof {
        assert(ints_of(list@) + Seq::<int>::empty() =~= ints_of(list@));
    }
    Some(list)
}

/// The numbers of `s` as integers.
pub open spec fn ints_of(s: Seq<usize>) -> Seq<int> {
    Seq::new(s.len(), |i: int| s[i] as int)
}

/// Whether a tree of height `h` is stored at `o` that has the shape of a
/// sound tree within the bounds `lo` and `hi`: everything that `subtree`
/// asks for, but that no page belongs to the tree twice.
pub open spec fn shape(disk: Disk, o: int, h: nat, lo: Option<Key>, hi: Option<Key>) -> bool
    decreases h,
{
    match node_at(disk, o) {
        None => false,
        Some(node) => match node.kind {
            KindView::Leaf { next, previous, pairs } => {
                &&& h == 0
                &&& space_at(disk, o) <= PAGE_SIZE
                &&& pairs_sorted(pairs)
                &&& forall|i: int|
                    0 <= i < pairs.len() ==> at_or_above(lo, (#[trigger] pairs[i]).0) && below(
                        pairs[i].0,
                        hi,
                    )
            },
            KindView::Internal { keys, children } => {
                &&& h > 0
                &&& space_at(disk, o) <= PAGE_SIZE
                &&& children.len() == keys.len() + 1
                &&& keys_sorted(keys)
                &&& forall|i: int|
                    0 <= i < keys.len() ==> above(lo, #[trigger] keys[i]) && below(keys[i], hi)
                &&& forall|i: int|
                    0 <= i < children.len() ==> shape(
                        disk,
                        #[trigger] children[i] as int,
                        (h - 1) as nat,
                        child_lo(keys, lo, i),
                        child_hi(keys, hi, i),
                    )
            },
        },
    }
}

/// The pages of the trees of height `hc` stored at the first `n` of
/// `children`, those of the first child first.
pub open spec fn walk_children(disk: Disk, children: Seq<usize>, hc: nat, n: int) -> Seq<int>
    decreases hc, 1nat, n,
{
    if n <= 0 || n > children.len() {
        Seq::empty()
    } else {
        walk_children(disk, children, hc, n - 1) + walk(disk, children[n - 1] as int, hc)
    }
}

/// The pages of the tree of height `h` stored at `o` as they are met on a
/// walk through the tree: the root first, then the pages of each child.
pub open spec fn walk(disk: Disk, o: int, h: nat) -> Seq<int>
    decreases h, 0nat, 0int,
{
    seq![o] + (if h == 0 {
        Seq::empty()
    } else {
        match node_at(disk, o) {
            Some(node) => match node.kind {
                KindView::Internal { keys, children } => walk_children(
                    disk,
                    children,
                    (h - 1) as nat,
                    children.len() as int,
                ),
                KindView::Leaf { .. } => Seq::empty(),
            },
            None => Seq::empty(),
        }
    })
}

/// A walk through the children meets the pages of each of them.
pub proof fn lemma_walk_children(disk: Disk, children: Seq<usize>, hc: nat, n: int, p: int)
    requires
        0 <= n <= children.len(),
    ensures
        walk_children(disk, children, hc, n).contains(p) <==> exists|i: int|
            0 <= i < n && in_subtree(disk, #[trigger] children[i] as int, hc, p),
    decreases hc, 1nat, n,
{
    if n > 0 {
        let front = walk_children(disk, children, hc, n - 1);
        let last = walk(disk, children[n - 1] as int, hc);
        lemma_walk_children(disk, children, hc, n - 1, p);
        lemma_walk(disk, children[n - 1] as int, hc, p);
        lemma_concat_contains(front, last, p);
        if exists|i: int| 0 <= i < n && in_subtree(disk, #[trigger] children[i] as int, hc, p) {
            let i = choose|i: int|
                0 <= i < n && in_subtree(disk, #[trigger] children[i] as int, hc, p);
            if i < n - 1 {
                assert(front.contains(p));
            }
        }
    }
}

/// A walk through a tree meets the pages of the tree, and no others.
pub proof fn lemma_walk(disk: Disk, o: int, h: nat, p: int)
    ensures
        walk(disk, o, h).contains(p) <==> in_subtree(disk, o, h, p),
    decreases h, 0nat, 0int,
{
    let rest = walk(disk, o, h).subrange(1, walk(disk, o, h).len() as int);
    assert(walk(disk, o, h) =~= seq![o] + rest);
    lemma_concat_contains(seq![o], rest, p);
    assert(seq![o].contains(p) <==> p == o) by {
        if p == o {
            assert(seq![o][0] == p);
        }
    }
    if h > 0 {
        match node_at(disk, o) {
            Some(node) => match node.kind {
                KindView::Internal { keys, children } => {
                    assert(rest =~= walk_children(
                        disk,
                        children,
                        (h - 1) as nat,
                        children.len() as int,
                    ));
                    lemma_walk_children(disk, children, (h - 1) as nat, children.len() as int, p);
                },
                KindView::Leaf { .. } => {
                    assert(rest =~= Seq::<int>::empty());
                },
            },
            None => {
                assert(rest =~= Seq::<int>::empty());
            },
        }
    } else {
        assert(rest =~= Seq::<int>::empty());
    }
}

/// What one sequence followed by another holds is what either holds.
pub proof fn lemma_concat_contains(a: Seq<int>, b: Seq<int>, p: int)
    ensures
        (a + b).contains(p) <==> a.contains(p) || b.contains(p),
{
    if a.contains(p) {
        let i = choose|i: int| 0 <= i < a.len() && a[i] == p;
        assert((a + b)[i] == p);
    }
    if b.contains(p) {
        let i = choose|i: int| 0 <= i < b.len() && b[i] == p;
        assert((a + b)[a.len() + i] == p);
    }
    if (a + b).contains(p) {
        let i = choose|i: int| 0 <= i < (a + b).len() && (a + b)[i] == p;
        if i < a.len() {
            assert(a[i] == p);
        } else {
            assert(b[i - a.len()] == p);
        }
    }
}

/// Where one sequence followed by another holds nothing twice, neither
/// does, and they hold nothing in common.
pub proof fn lemma_concat_distinct(a: Seq<int>, b: Seq<int>)
    requires
        (a + b).no_duplicates(),
    ensures
        a.no_duplicates(),
        b.no_duplicates(),
        forall|p: int| !(a.contains(p) && b.contains(p)),
{
    let all = a + b;
    assert forall|i: int, j: int| 0 <= i < a.len() && 0 <= j < a.len() && i != j implies a[i]
        != a[j] by {
        assert(all[i] == a[i] && all[j] == a[j]);
    }
    assert forall|i: int, j: int| 0 <= i < b.len() && 0 <= j < b.len() && i != j implies b[i]
        != b[j] by {
        assert(all[a.len() + i] == b[i] && all[a.len() + j] == b[j]);
    }
    assert forall|p: int| !(a.contains(p) && b.contains(p)) by {
        if a.contains(p) && b.contains(p) {
            let i = choose|i: int| 0 <= i < a.len() && a[i] == p;
            let j = choose|j: int| 0 <= j < b.len() && b[j] == p;
            assert(all[i] == p && all[a.len() + j] == p);
        }
    }
}

/// Where a walk through the children meets no page twice, the walk through
/// each child meets none twice, and no two children have a page in common.
pub proof fn lemma_children_apart(disk: Disk, children: Seq<usize>, hc: nat, n: int)
    requires
        0 <= n <= children.len(),
        walk_children(disk, children, hc, n).no_duplicates(),
    ensures
        forall|i: int|
            0 <= i < n ==> walk(disk, #[trigger] children[i] as int, hc).no_duplicates(),
        forall|i: int, j: int|
            0 <= i < j < n ==> pages(disk, #[trigger] children[i] as int, hc).disjoint(
                pages(disk, #[trigger] children[j] as int, hc),
            ),
    decreases n,
{
    if n > 0 {
        let front = walk_children(disk, children, hc, n - 1);
        let last = walk(disk, children[n - 1] as int, hc);
        lemma_concat_distinct(front, last);
        lemma_children_apart(disk, children, hc, n - 1);
        assert forall|i: int, j: int| 0 <= i < j < n implies pages(
            disk,
            #[trigger] children[i] as int,
            hc,
        ).disjoint(pages(disk, #[trigger] children[j] as int, hc)) by {
            if j == n - 1 {
                assert forall|p: int|
                    !(pages(disk, children[i] as int, hc).contains(p) && pages(
                        disk,
                        children[j] as int,
                        hc,
                    ).contains(p)) by {
                    lemma_walk_children(disk, children, hc, n - 1, p);
                    lemma_walk(disk, children[j] as int, hc, p);
                    if in_subtree(disk, children[i] as int, hc, p) {
                        assert(front.contains(p));
                    }
                }
            }
        }
    }
}

/// A tree that has the shape of a sound tree, and of which a walk meets no
/// page twice, is a sound tree.
pub proof fn lemma_shape_sound(disk: Disk, o: int, h: nat, lo: Option<Key>, hi: Option<Key>)
    requires
        shape(disk, o, h, lo, hi),
        walk(disk, o, h).no_duplicates(),
    ensures
        subtree(disk, o, h, lo, hi),
    decreases h,
{
    let node = node_at(disk, o)->Some_0;
    match node.kind {
        KindView::Internal { keys, children } => {
            let hc = (h - 1) as nat;
            let below = walk_children(disk, children, hc, children.len() as int);
            assert(walk(disk, o, h) =~= seq![o] + below);
            lemma_concat_distinct(seq![o], below);
            lemma_children_apart(disk, children, hc, children.len() as int);
            assert(seq![o].contains(o)) by {
                assert(seq![o][0] == o);
            }
            assert forall|i: int| 0 <= i < children.len() implies subtree(
                disk,
                #[trigger] children[i] as int,
                hc,
                child_lo(keys, lo, i),
                child_hi(keys, hi, i),
            ) && !in_subtree(disk, children[i] as int, hc, o) by {
                lemma_shape_sound(
                    disk,
                    children[i] as int,
                    hc,
                    child_lo(keys, lo, i),
                    child_hi(keys, hi, i),
                );
                lemma_walk_children(disk, children, hc, children.len() as int, o);
            }
        },
        KindView::Leaf { .. } => {},
    }
}

/// The bound that a string, or none, stands for.
pub open spec fn bound_of(bound: Option<&str>) -> Option<Key> {
    match bound {
        Some(s) => Some(key_of(s@)),
        None => None,
    }
}

/// Whether `key` is at or after the lower bound `lo`.
fn is_at_or_above(lo: Option<&str>, key: &str) -> (r: bool)
    ensures
        r == at_or_above(bound_of(lo), key_of(key@)),
{
    match lo {
        Some(bound) => {
            proof {
                lemma_key_trichotomy(key_of(bound@), key_of(key@));
            }
            match str_order(bound, key) {
                KeyOrder::After => false,
                _ => true,
            }
        },
        None => true,
    }
}

/// Whether `key` is after the lower bound `lo`.
fn is_above(lo: Option<&str>, key: &str) -> (r: bool)
    ensures
        r == above(bound_of(lo), key_of(key@)),
{
    match lo {
        Some(bound) => match str_order(bound, key) {
            KeyOrder::Before => true,
            _ => false,
        },
        None => true,
    }
}

/// Whether `key` is before the upper bound `hi`.
fn is_below(key: &str, hi: Option<&str>) -> (r: bool)
    ensures
        r == below(key_of(key@), bound_of(hi)),
{
    match hi {
        Some(bound) => match str_order(key, bound) {
            KeyOrder::Before => true,
            _ => false,
        },
        None => true,
    }
}

/// Whether the pairs can be the pairs of a leaf within the bounds: their
/// keys are in ascending order, none twice, and lie at or after `lo` and
/// before `hi`.
fn pairs_in_order(pairs: &Vec<KeyValuePair>, lo: Option<&str>, hi: Option<&str>) -> (r: bool)
    ensures
        r <==> pairs_sorted(pairs_view(pairs@)) && forall|i: int|
            0 <= i < pairs@.len() ==> at_or_above(
                bound_of(lo),
                (#[trigger] pairs_view(pairs@)[i]).0,
            ) && below(pairs_view(pairs@)[i].0, bound_of(hi)),
{
    let ghost all = pairs_view(pairs@);
    let mut i: usize = 0;
    while i < pairs.len()
        invariant
            i <= pairs.len(),
            all == pairs_view(pairs@),
            forall|a: int, b: int|
                0 <= a < b < i ==> key_lt((#[trigger] all[a]).0, (#[trigger] all[b]).0),
            forall|a: int|
                0 <= a < i ==> at_or_above(bound_of(lo), (#[trigger] all[a]).0) && below(
                    all[a].0,
                    bound_of(hi),
                ),
        decreases pairs.len() - i,
    {
        let key = pairs[i].key.as_str();
        assert(all[i as int].0 == key_of(key@));
        if !is_at_or_above(lo, key) || !is_below(key, hi) {
            return false;
        }
        if i > 0 {
            let before = pairs[i - 1].key.as_str();
            assert(all[i - 1].0 == key_of(before@));
            match str_order(before, key) {
                KeyOrder::Before => {},
                _ => {
                    return false;
                },
            }
            proof {
                assert forall|a: int| 0 <= a < i implies key_lt(
                    (#[trigger] all[a]).0,
                    all[i as int].0,
                ) by {
                    if a < i - 1 {
                        assert(key_lt(all[a].0, all[i - 1].0));
                        lemma_key_lt_transitive(all[a].0, all[i - 1].0, all[i as int].0);
                    }
                }
            }
        }
        i = i + 1;
    }
    true
}

/// Whether the keys can be the separators of a node within the bounds: they
/// are in ascending order, none twice, and lie after `lo` and before `hi`.
fn keys_in_order(keys: &Vec<String>, lo: Option<&str>, hi: Option<&str>) -> (r: bool)
    ensures
        r <==> keys_sorted(keys_view(keys@)) && forall|i: int|
            0 <= i < keys@.len() ==> above(bound_of(lo), #[trigger] keys_view(keys@)[i]) && below(
                keys_view(keys@)[i],
                bound_of(hi),
            ),
{
    let ghost all = keys_view(keys@);
    let mut i: usize = 0;
    while i < keys.len()
        invariant
            i <= keys.len(),
            all == keys_view(keys@),
            forall|a: int, b: int| 0 <= a < b < i ==> key_lt(#[trigger] all[a], #[trigger] all[b]),
            forall|a: int|
                0 <= a < i ==> above(bound_of(lo), #[trigger] all[a]) && below(
                    all[a],
                    bound_of(hi),
                ),
        decreases keys.len() - i,
    {
        let key = keys[i].as_str();
        assert(all[i as int] == key_of(key@));
        if !is_above(lo, key) || !is_below(key, hi) {
            return false;
        }
        if i > 0 {
            let before = keys[i - 1].as_str();
            assert(all[i - 1] == key_of(before@));
            match str_order(before, key) {
                KeyOrder::Before => {},
                _ => {
                    return false;
                },
            }
            proof {
                assert forall|a: int| 0 <= a < i implies key_lt(#[trigger] all[a], all[i as int]) by {
                    if a < i - 1 {
                        assert(key_lt(all[a], all[i - 1]));
                        lemma_key_lt_transitive(all[a], all[i - 1], all[i as int]);
                    }
                }
            }
        }
        i = i + 1;
    }
    true
}

/// Walks the tree stored at `offset` and finds out whether it has the shape
/// of a sound tree within the bounds. Where it has, its height is given, and
/// the pages of the tree are put behind what `seen` held, in the order of
/// the walk. The walk goes no more than `budget` nodes deep: a tree of the
/// height `h` that has that shape is found to have it where `budget` is
/// more than `h`.
#[verifier::rlimit(60)]
fn shape_below(
    pager: &Pager,
    offset: usize,
    lo: Option<&str>,
    hi: Option<&str>,
    budget: usize,
    seen: &mut Vec<usize>,
    Ghost(h): Ghost<nat>,
) -> (r: Option<usize>)
    ensures
        r is Some ==> shape(
            pager.disk(),
            offset as int,
            r->Some_0 as nat,
            bound_of(lo),
            bound_of(hi),
        ) && ints_of(final(seen)@) == ints_of(old(seen)@) + walk(
            pager.disk(),
            offset as int,
            r->Some_0 as nat,
        ),
        shape(pager.disk(), offset as int, h, bound_of(lo), bound_of(hi)) && h < budget ==> r
            == Some(h as usize),
    decreases budget,
{
    if budget == 0 || offset == 0 {
        return None;
    }
    let ghost disk = pager.disk();
    let ghost o = offset as int;
    let ghost start = ints_of(seen@);
    let node = match read_node_at(pager, &Offset(offset)) {
        Ok(node) => node,
        Err(_) => {
            return None;
        },
    };
    seen.push(offset);
    let ghost whole = shape(disk, o, h, bound_of(lo), bound_of(hi)) && h < budget;
    proof {
        assert(ints_of(seen@) =~= start + seq![o]);
        assert(node_at(disk, o) == Some(node@));
        crate::node::lemma_decode_storable(page_at(disk, o));
    }
    match &node.node_kind {
        NodeKind::Leaf { next, previous, key_value_pairs, occupied_space } => {
            if *occupied_space > PAGE_SIZE || !pairs_in_order(key_value_pairs, lo, hi) {
                return None;
            }
            proof {
                assert(walk(disk, o, 0) =~= seq![o]);
            }
            Some(0)
        },
        NodeKind::Internal { keys, children, occupied_space } => {
            if *occupied_space > PAGE_SIZE || keys.len() == usize::MAX || children.len()
                != keys.len() + 1 || !keys_in_order(keys, lo, hi) {
                return None;
            }
            let ghost all_keys = keys_view(keys@);
            let ghost kids = offsets_view(children@);
            let mut height: usize = 0;
            let mut i: usize = 0;
            while i < children.len()
                invariant
                    i <= children.len(),
                    budget > 0,
                    disk == pager.disk(),
                    all_keys == keys_view(keys@),
                    kids == offsets_view(children@),
                    children@.len() == keys@.len() + 1,
                    forall|j: int|
                        0 <= j < i ==> shape(
                            disk,
                            #[trigger] kids[j] as int,
                            height as nat,
                            child_lo(all_keys, bound_of(lo), j),
                            child_hi(all_keys, bound_of(hi), j),
                        ),
                    ints_of(seen@) == start + seq![o] + walk_children(
                        disk,
                        kids,
                        height as nat,
                        i as int,
                    ),
                    whole == (shape(disk, o, h, bound_of(lo), bound_of(hi)) && h < budget),
                    o == offset as int,
                    node_at(disk, o) == Some(node@),
                    node@.kind == (KindView::Internal { keys: all_keys, children: kids }),
                    whole && i > 0 ==> height == h - 1,
                decreases children.len() - i,
            {
                let child_lo_bound = if i == 0 {
                    lo
                } else {
                    Some(keys[i - 1].as_str())
                };
                let child_hi_bound = if i == keys.len() {
                    hi
                } else {
                    Some(keys[i].as_str())
                };
                proof {
                    assert(kids[i as int] == children@[i as int].0);
                    if i > 0 {
                        assert(all_keys[i - 1] == key_of(keys@[i - 1]@));
                    }
                    if i < keys.len() {
                        assert(all_keys[i as int] == key_of(keys@[i as int]@));
                    }
                    assert(bound_of(child_lo_bound) == child_lo(all_keys, bound_of(lo), i as int));
                    assert(bound_of(child_hi_bound) == child_hi(all_keys, bound_of(hi), i as int));
                    if whole {
                        assert(h > 0);
                        assert(shape(
                            disk,
                            kids[i as int] as int,
                            (h - 1) as nat,
                            child_lo(all_keys, bound_of(lo), i as int),
                            child_hi(all_keys, bound_of(hi), i as int),
                        ));
                    }
                }
                let below = match shape_below(
                    pager,
                    children[i].0,
                    child_lo_bound,
                    child_hi_bound,
                    budget - 1,
                    seen,
                    Ghost((h - 1) as nat),
                ) {
                    Some(found) => found,
                    None => {
                        return None;
                    },
                };
                if i == 0 {
                    height = below;
                    proof {
                        assert(walk_children(disk, kids, height as nat, 0) =~= Seq::<int>::empty());
                    }
                } else if below != height {
                    return None;
                }
                proof {
                    assert(ints_of(seen@) =~= start + seq![o] + walk_children(
                        disk,
                        kids,
                        height as nat,
                        i + 1,
                    ));
                }
                i = i + 1;
            }
            if height == usize::MAX {
                return None;
            }
            proof {
                assert(walk(disk, o, (height + 1) as nat) =~= seq![o] + walk_children(
                    disk,
                    kids,
                    height as nat,
                    kids.len() as int,
                ));
                assert(ints_of(seen@) =~= start + walk(disk, o, (height + 1) as nat));
            }
            Some(height + 1)
        },
    }
}

/// Whether no number is in `list` twice.
fn all_distinct(list: &Vec<usize>) -> (r: bool)
    ensures
        r <==> ints_of(list@).no_duplicates(),
{
    let mut queue = FreeQueue::new();
    let mut i: usize = 0;
    while i < list.len()
        invariant
            i <= list.len(),
            queue@.len() <= i,
            queue@.len() == i ==> (forall|a: int, b: int|
                0 <= a < b < i ==> list@[a] != list@[b]) && forall|x: usize|
                queue@.contains(x) <==> exists|a: int| 0 <= a < i && list@[a] == x,
            ints_of(list@).no_duplicates() ==> queue@.len() == i,
        decreases list.len() - i,
    {
        let ghost before = queue@;
        queue.add(Offset(list[i]));
        proof {
            if ints_of(list@).no_duplicates() && before.contains(list@[i as int]) {
                let a = choose|a: int| 0 <= a < i && list@[a] == list@[i as int];
                assert(ints_of(list@)[a] == ints_of(list@)[i as int]);
            }
            if queue@.len() == i + 1 {
                assert(before.len() == i);
                assert(!before.contains(list@[i as int]));
                assert forall|a: int, b: int| 0 <= a < b < i + 1 implies list@[a] != list@[b] by {
                    if b == i {
                        assert(before.contains(list@[a]));
                    }
                }
                assert forall|x: usize|
                    queue@.contains(x) <==> exists|a: int| 0 <= a < i + 1 && list@[a] == x by {
                    if exists|a: int| 0 <= a < i + 1 && list@[a] == x {
                        let a = choose|a: int| 0 <= a < i + 1 && list@[a] == x;
                        if a < i {
                            assert(before.contains(x));
                        }
                    }
                    if queue@.contains(x) && x != list@[i as int] {
                        assert(before.contains(x));
                        let a = choose|a: int| 0 <= a < i && list@[a] == x;
                        assert(0 <= a < i + 1 && list@[a] == x);
                    }
                }
            }
        }
        i = i + 1;
    }
    let all = queue.q();
    all.len() == list.len()
}

/// A sound tree has the shape of a sound tree.
pub proof fn lemma_sound_shape(disk: Disk, o: int, h: nat, lo: Option<Key>, hi: Option<Key>)
    requires
        subtree(disk, o, h, lo, hi),
    ensures
        shape(disk, o, h, lo, hi),
    decreases h,
{
    match node_at(disk, o)->Some_0.kind {
        KindView::Internal { keys, children } => {
            assert forall|i: int| 0 <= i < children.len() implies shape(
                disk,
                #[trigger] children[i] as int,
                (h - 1) as nat,
                child_lo(keys, lo, i),
                child_hi(keys, hi, i),
            ) by {
                lemma_sound_shape(
                    disk,
                    children[i] as int,
                    (h - 1) as nat,
                    child_lo(keys, lo, i),
                    child_hi(keys, hi, i),
                );
            }
        },
        KindView::Leaf { .. } => {},
    }
}

/// A walk through the first `n` children of a sound internal node meets no
/// page twice.
pub proof fn lemma_sound_children_walk(
    disk: Disk,
    o: int,
    h: nat,
    lo: Option<Key>,
    hi: Option<Key>,
    n: int,
)
    requires
        subtree(disk, o, h, lo, hi),
        node_at(disk, o)->Some_0.kind is Internal,
        0 <= n <= node_at(disk, o)->Some_0.kind->Internal_children.len(),
    ensures
        walk_children(
            disk,
            node_at(disk, o)->Some_0.kind->Internal_children,
            (h - 1) as nat,
            n,
        ).no_duplicates(),
    decreases h, 0nat, n,
{
    let keys = node_at(disk, o)->Some_0.kind->Internal_keys;
    let children = node_at(disk, o)->Some_0.kind->Internal_children;
    let hc = (h - 1) as nat;
    if n > 0 {
        let front = walk_children(disk, children, hc, n - 1);
        let last = walk(disk, children[n - 1] as int, hc);
        lemma_sound_children_walk(disk, o, h, lo, hi, n - 1);
        assert(subtree(
            disk,
            children[n - 1] as int,
            hc,
            child_lo(keys, lo, n - 1),
            child_hi(keys, hi, n - 1),
        ));
        lemma_sound_walk(
            disk,
            children[n - 1] as int,
            hc,
            child_lo(keys, lo, n - 1),
            child_hi(keys, hi, n - 1),
        );
        assert forall|a: int, b: int| 0 <= a < front.len() && 0 <= b < last.len() implies front[a]
            != last[b] by {
            let p = front[a];
            if p == last[b] {
                assert(front.contains(p));
                assert(last.contains(p));
                lemma_walk_children(disk, children, hc, n - 1, p);
                lemma_walk(disk, children[n - 1] as int, hc, p);
                let i = choose|i: int|
                    0 <= i < n - 1 && in_subtree(disk, #[trigger] children[i] as int, hc, p);
                assert(pages(disk, children[i] as int, hc).disjoint(
                    pages(disk, children[n - 1] as int, hc),
                ));
                assert(pages(disk, children[i] as int, hc).contains(p));
                assert(pages(disk, children[n - 1] as int, hc).contains(p));
            }
        }
        vstd::seq_lib::lemma_no_dup_in_concat(front, last);
    }
}

/// A walk through a sound tree meets no page twice.
pub proof fn lemma_sound_walk(disk: Disk, o: int, h: nat, lo: Option<Key>, hi: Option<Key>)
    requires
        subtree(disk, o, h, lo, hi),
    ensures
        walk(disk, o, h).no_duplicates(),
    decreases h, 1nat, 0int,
{
    match node_at(disk, o)->Some_0.kind {
        KindView::Internal { keys, children } => {
            let below = walk_children(disk, children, (h - 1) as nat, children.len() as int);
            lemma_sound_children_walk(disk, o, h, lo, hi, children.len() as int);
            assert forall|a: int, b: int| 0 <= a < 1 && 0 <= b < below.len() implies seq![o][a]
                != below[b] by {
                if below[b] == o {
                    assert(below.contains(o));
                    lemma_walk_children(disk, children, (h - 1) as nat, children.len() as int, o);
                }
            }
            vstd::seq_lib::lemma_no_dup_in_concat(seq![o], below);
            assert(walk(disk, o, h) =~= seq![o] + below);
        },
        KindView::Leaf { .. } => {
            assert(walk(disk, o, h) =~= seq![o]);
        },
    }
}

/// A walk through a tree that has the shape of a sound tree of height `h`
/// meets more than `h` pages.
pub proof fn lemma_walk_long(disk: Disk, o: int, h: nat, lo: Option<Key>, hi: Option<Key>)
    requires
        shape(disk, o, h, lo, hi),
    ensures
        walk(disk, o, h).len() > h,
    decreases h,
{
    match node_at(disk, o)->Some_0.kind {
        KindView::Internal { keys, children } => {
            let n = children.len() as int;
            lemma_walk_long(
                disk,
                children[n - 1] as int,
                (h - 1) as nat,
                child_lo(keys, lo, n - 1),
                child_hi(keys, hi, n - 1),
            );
            assert(walk_children(disk, children, (h - 1) as nat, n) == walk_children(
                disk,
                children,
                (h - 1) as nat,
                n - 1,
            ) + walk(disk, children[n - 1] as int, (h - 1) as nat));
        },
        KindView::Leaf { .. } => {},
    }
}

/// Pages of a storage, none of them twice, are fewer than the storage has
/// pages.
pub proof fn lemma_pages_few(disk: Disk, s: Seq<int>)
    requires
        s.no_duplicates(),
        forall|i: int| 0 <= i < s.len() ==> is_page(disk, #[trigger] s[i]),
    ensures
        s.len() < disk.len() || s.len() == 0,
{
    if s.len() > 0 {
        let idx = Seq::new(s.len(), |i: int| s[i] / (PAGE_SIZE as int));
        assert(is_page(disk, s[0]));
        assert forall|i: int, j: int| 0 <= i < idx.len() && 0 <= j < idx.len() && i != j implies idx[i]
            != idx[j] by {
            assert(is_page(disk, s[i]) && is_page(disk, s[j]));
            assert(s[i] != s[j]);
        }
        idx.unique_seq_to_set();
        vstd::set_lib::lemma_int_range(1, disk.len() as int);
        assert(idx.to_set().subset_of(vstd::set_lib::set_int_range(1, disk.len() as int))) by {
            assert forall|x: int| idx.to_set().contains(x) implies vstd::set_lib::set_int_range(
                1,
                disk.len() as int,
            ).contains(x) by {
                let i = choose|i: int| 0 <= i < idx.len() && idx[i] == x;
                assert(is_page(disk, s[i]));
            }
        }
        vstd::set_lib::lemma_len_subset(
            idx.to_set(),
            vstd::set_lib::set_int_range(1, disk.len() as int),
        );
    }
}

/// A sound index is found to be sound: its tree is lower than the storage
/// has pages, has the shape of a sound tree, and the pages of the tree and
/// of the free list are each met once.
pub proof fn lemma_sound_found(pager: Pager, h: nat)
    requires
        sound(pager, h),
    ensures
        h < pager.disk().len(),
        shape(pager.disk(), root_of(pager), h, None, None),
        (walk(pager.disk(), root_of(pager), h) + pager.free_list()->Some_0).no_duplicates(),
{
    let disk = pager.disk();
    let o = root_of(pager);
    let met = walk(disk, o, h);
    let free = pager.free_list()->Some_0;
    lemma_sound_shape(disk, o, h, None, None);
    lemma_sound_walk(disk, o, h, None, None);
    lemma_walk_long(disk, o, h, None, None);
    assert forall|i: int| 0 <= i < met.len() implies is_page(disk, #[trigger] met[i]) by {
        assert(met.contains(met[i]));
        lemma_walk(disk, o, h, met[i]);
        assert(live(pager, met[i]));
    }
    lemma_pages_few(disk, met);
    crate::pager::lemma_chain_props(disk, pager.head());
    assert forall|a: int, b: int| 0 <= a < met.len() && 0 <= b < free.len() implies met[a]
        != free[b] by {
        assert(met.contains(met[a]));
        lemma_walk(disk, o, h, met[a]);
        assert(live(pager, met[a]));
        if met[a] == free[b] {
            assert(free.contains(met[a]));
        }
    }
    vstd::seq_lib::lemma_no_dup_in_concat(met, free);
}

impl BTree {
    /// Finds out whether the index is sound, by a walk through the free list
    /// and through the tree. It is sound where this says so, and only then,
    /// and every operation can then be called on it. The storage is left as
    /// it is.
    pub fn check(&mut self) -> (ok: bool)
        ensures
            final(self).pager == old(self).pager,
            ok <==> exists|h: nat| sound(old(self).pager, h),
            ok ==> final(self).valid(),
    {
        let free = match free_list_of(&self.pager) {
            Some(free) => free,
            None => {
                return false;
            },
        };
        let root = match self.pager.config.root_page {
            Some(root) => root,
            None => {
                return false;
            },
        };
        let mut met: Vec<usize> = Vec::new();
        let budget = self.pager.pages.len();
        let ghost whole = exists|h: nat| sound(self.pager, h);
        let ghost goal = if whole {
            choose|h: nat| sound(self.pager, h)
        } else {
            0
        };
        proof {
            if whole {
                lemma_sound_found(self.pager, goal);
            }
        }
        let height = match shape_below(
            &self.pager,
            root.0,
            None,
            None,
            budget,
            &mut met,
            Ghost(goal),
        ) {
            Some(height) => height,
            None => {
                return false;
            },
        };
        let ghost tree_pages = ints_of(met@);
        let ghost free_pages = ints_of(free@);
        let mut all = met;
        let mut rest = free;
        all.append(&mut rest);
        proof {
            assert(ints_of(all@) =~= tree_pages + free_pages);
            if whole {
                assert(tree_pages =~= walk(self.pager.disk(), root.0 as int, goal));
            }
        }
        if !all_distinct(&all) {
            return false;
        }
        self.height = Ghost(height as nat);
        proof {
            let disk = self.pager.disk();
            assert(ints_of(all@) =~= tree_pages + free_pages);
            lemma_concat_distinct(tree_pages, free_pages);
            assert(tree_pages =~= walk(disk, root.0 as int, height as nat));
            lemma_shape_sound(disk, root.0 as int, height as nat, None, None);
            assert forall|p: int| #[trigger]
                in_subtree(disk, root.0 as int, height as nat, p) implies live(self.pager, p) by {
                lemma_walk(disk, root.0 as int, height as nat, p);
                lemma_subtree_pages(disk, root.0 as int, height as nat, None, None, p);
            }
            assert(sound(self.pager, height as nat));
        }
        true
    }
}

} // verus!
