//! The index itself: what it holds, when it is sound, how it is opened and
//! searched, and how an operation that has written a new tree makes it the
//! tree of the index.

use crate::error::Error;
use crate::key::{
    Key, key_lt, key_of, KeyOrder, keys_sorted, lemma_key_le_lt, lemma_key_lt_irreflexive,
    lemma_key_lt_transitive, lemma_key_trichotomy, str_order,
};
use crate::node::{
    decode, encode, is_fault, keys_view, KeyValuePair, KindView, layout, lemma_decode_encode,
    lemma_storable_fault, link_word, Node, NodeKind, NodeView, offset_view, offsets_view,
    pairs_view, storable,
};
use crate::occupancy::{all_snug, even_at, one_more, snug_at, well_filled};
use crate::page::Page;
use crate::page_layout::{LEAF_HEADER_SIZE, PAGE_SIZE};
use crate::pager::{
    can_free, config_bytes, Disk, freed_pages, FreeQueue, in_store, is_page, lemma_chain_frame,
    lemma_chain_props, lemma_insert_all_contains, lemma_page_index_distinct, Offset, page_at, Pager,
    pages_of,
};
use crate::split::pair_keys;
use crate::tree::{
    all_live, child_hi, child_lo, from_tree, grew, in_subtree, lemma_pairs_get_at, lemma_route_is,
    lemma_subtree_frame, lemma_subtree_grew, lemma_took_grew, lemma_took_one, live, lookup, node_at,
    pages, pairs_get, pairs_sorted, room, route, settled, space_at, subtree,
};
use vstd::prelude::*;

verus! {

/// The index: a tree of keys and values in the pages of a pager. `height`
/// is the number of steps from the root to the leaves.
pub struct BTree {
    pub pager: Pager,
    pub height: Ghost<nat>,
}

impl View for BTree {
    type V = Map<Seq<char>, u64>;

    /// What the index holds: the value of each key that has one.
    open spec fn view(&self) -> Map<Seq<char>, u64> {
        Map::new(
            |s: Seq<char>| lookup(self.pager.disk(), self.root(), self.height@, key_of(s)) is Some,
            |s: Seq<char>| lookup(self.pager.disk(), self.root(), self.height@, key_of(s))->Some_0,
        )
    }
}

impl BTree {
    /// Where the root of the tree is stored; zero where there is none.
    pub open spec fn root(&self) -> int {
        link_word(offset_view(self.pager.config.root_page)) as int
    }

    /// Whether the index is sound: the pager is, a sound tree is stored at
    /// the root, and every page of the tree is in use: none is free.
    pub open spec fn valid(&self) -> bool {
        sound(self.pager, self.height@)
    }
}

/// Where the root of the tree of a pager is stored; zero where there is
/// none.
pub open spec fn root_of(pager: Pager) -> int {
    link_word(offset_view(pager.config.root_page)) as int
}

/// Whether a pager holds a sound tree of height `h`: the pager is sound,
/// its free list in ascending order; a sound tree of that height, with all
/// its leaves at that depth, its keys in order and no node larger than a
/// page, is stored at the root; and every page of the tree is in use: none
/// is in the free list.
pub open spec fn sound(pager: Pager, h: nat) -> bool {
    &&& pager.wf()
    &&& pager.config.root_page is Some
    &&& subtree(pager.disk(), root_of(pager), h, None, None)
    &&& all_live(pager, root_of(pager), h)
}

/// The index of the first of `keys` that comes after `key`, or their number
/// where none does: the child to go to for `key`.
#[verifier::rlimit(60)]
pub fn find_child(keys: &Vec<String>, key: &str) -> (idx: usize)
    requires
        keys_sorted(keys_view(keys@)),
    ensures
        idx == route(keys_view(keys@), key_of(key@)),
        idx <= keys@.len(),
{
    let ghost all = keys_view(keys@);
    let ghost k = key_of(key@);
    let mut lo: usize = 0;
    let mut hi: usize = keys.len();
    while lo < hi
        invariant
            lo <= hi <= keys@.len(),
            all == keys_view(keys@),
            k == key_of(key@),
            keys_sorted(all),
            forall|j: int| 0 <= j < lo ==> !key_lt(k, #[trigger] all[j]),
            forall|j: int| hi <= j < all.len() ==> key_lt(k, #[trigger] all[j]),
        decreases hi - lo,
    {
        let mid = lo + (hi - lo) / 2;
        let order = str_order(key, keys[mid].as_str());
        assert(all[mid as int] == key_of(keys@[mid as int]@));
        if order == KeyOrder::Before {
            proof {
                assert forall|j: int| mid <= j < all.len() implies key_lt(k, #[trigger] all[j]) by {
                    if j > mid {
                        lemma_key_lt_transitive(k, all[mid as int], all[j]);
                    }
                }
            }
            hi = mid;
        } else {
            proof {
                lemma_key_trichotomy(k, all[mid as int]);
                assert forall|j: int| 0 <= j < mid + 1 implies !key_lt(k, #[trigger] all[j]) by {
                    if j < mid {
                        lemma_key_trichotomy(k, all[j]);
                        if key_lt(k, all[j]) {
                            lemma_key_le_lt(k, all[j], all[mid as int]);
                        }
                    }
                }
            }
            lo = mid + 1;
        }
    }
    proof {
        lemma_route_is(all, k, lo as int);
    }
    lo
}

/// Where `key` stands among `pairs`: the index of the pair that holds it,
/// or else the index at which a pair with it would keep the order.
#[verifier::rlimit(60)]
pub fn find_pair(pairs: &Vec<KeyValuePair>, key: &str) -> (r: Result<usize, usize>)
    requires
        pairs_sorted(pairs_view(pairs@)),
    ensures
        match r {
            Ok(idx) => idx < pairs@.len() && pairs_view(pairs@)[idx as int].0 == key_of(key@)
                && pairs_get(pairs_view(pairs@), key_of(key@)) == Some(pairs@[idx as int].value),
            Err(idx) => {
                &&& idx <= pairs@.len()
                &&& forall|j: int|
                    0 <= j < idx ==> key_lt((#[trigger] pairs_view(pairs@)[j]).0, key_of(key@))
                &&& forall|j: int|
                    idx <= j < pairs@.len() ==> key_lt(
                        key_of(key@),
                        (#[trigger] pairs_view(pairs@)[j]).0,
                    )
                &&& pairs_get(pairs_view(pairs@), key_of(key@)) is None
            },
        },
{
    let ghost all = pairs_view(pairs@);
    let ghost k = key_of(key@);
    let mut lo: usize = 0;
    let mut hi: usize = pairs.len();
    while lo < hi
        invariant
            lo <= hi <= pairs@.len(),
            all == pairs_view(pairs@),
            k == key_of(key@),
            pairs_sorted(all),
            forall|j: int| 0 <= j < lo ==> key_lt((#[trigger] all[j]).0, k),
            forall|j: int| hi <= j < all.len() ==> key_lt(k, (#[trigger] all[j]).0),
        decreases hi - lo,
    {
        let mid = lo + (hi - lo) / 2;
        let order = str_order(key, pairs[mid].key.as_str());
        assert(all[mid as int].0 == key_of(pairs@[mid as int].key@));
        match order {
            KeyOrder::Same => {
                proof {
                    lemma_pairs_get_at(all, mid as int);
                }
                return Ok(mid);
            },
            KeyOrder::Before => {
                proof {
                    assert forall|j: int| mid <= j < all.len() implies key_lt(
                        k,
                        (#[trigger] all[j]).0,
                    ) by {
                        if j > mid {
                            lemma_key_lt_transitive(k, all[mid as int].0, all[j].0);
                        }
                    }
                }
                hi = mid;
            },
            KeyOrder::After => {
                proof {
                    assert forall|j: int| 0 <= j < mid + 1 implies key_lt(
                        (#[trigger] all[j]).0,
                        k,
                    ) by {
                        if j < mid {
                            lemma_key_lt_transitive(all[j].0, all[mid as int].0, k);
                        }
                    }
                }
                lo = mid + 1;
            },
        }
    }
    proof {
        assert(pairs_get(all, k) is None) by {
            if exists|i: int| 0 <= i < all.len() && (#[trigger] all[i]).0 == k {
                let i = choose|i: int| 0 <= i < all.len() && (#[trigger] all[i]).0 == k;
                lemma_key_lt_irreflexive(k);
                if i < lo {
                    assert(key_lt(all[i].0, k));
                } else {
                    assert(key_lt(k, all[i].0));
                }
            }
        }
    }
    Err(lo)
}

/// Whether `r` is what reading the node stored at `o` gives.
pub open spec fn read_as(disk: Disk, o: int, r: Result<Node, Error>) -> bool {
    if !in_store(disk, o) {
        r is Err && if o % (PAGE_SIZE as int) != 0 {
            r->Err_0 is UnexpectedError
        } else {
            r->Err_0 is FileSystemError
        }
    } else {
        match decode(page_at(disk, o)) {
            Ok((node, end)) => r is Ok && r->Ok_0@ == node && r->Ok_0.node_kind.occupied() == end
                + 1,
            Err(f) => r is Err && is_fault(r->Err_0, f),
        }
    }
}

/// Reads the node stored at `offset`.
pub(crate) fn read_node_at(pager: &Pager, offset: &Offset) -> (r: Result<Node, Error>)
    ensures
        read_as(pager.disk(), offset.0 as int, r),
        node_at(pager.disk(), offset.0 as int) is Some ==> r is Ok && r->Ok_0@ == node_at(
            pager.disk(),
            offset.0 as int,
        )->Some_0 && r->Ok_0.node_kind.occupied() == space_at(pager.disk(), offset.0 as int),
{
    let page = pager.get_page(offset)?;
    Node::try_from(page)
}

impl BTree {
    /// Reads the node stored at `offset`: what `decode` finds in the page
    /// that starts there, with its occupied space counted anew. Fails as the
    /// pager does where no page starts there, and with the error for the
    /// first fault that `decode` meets where the page holds no node.
    pub fn read_node(&self, offset: &Offset) -> (r: Result<Node, Error>)
        ensures
            read_as(self.pager.disk(), offset.0 as int, r),
    {
        read_node_at(&self.pager, offset)
    }

    /// Where the root is stored. Fails with `InvalidRootOffset` where the
    /// configuration names none.
    pub(crate) fn root_offset(&self) -> (r: Result<Offset, Error>)
        ensures
            match self.pager.config.root_page {
                Some(o) => r == Ok::<Offset, Error>(o),
                None => r is Err && r->Err_0 is InvalidRootOffset,
            },
    {
        match self.pager.config.root_page {
            Some(o) => Ok(o),
            None => Err(Error::InvalidRootOffset),
        }
    }

    /// The value of `key`, or nothing where the index holds no such key.
    pub fn search(&self, key: &str) -> (r: Result<Option<u64>, Error>)
        requires
            self.valid(),
        ensures
            r is Ok,
            r->Ok_0 == (if self@.contains_key(key@) {
                Some(self@[key@])
            } else {
                None
            }),
    {
        let root = self.root_offset()?;
        let root_node = self.read_node(&root)?;
        self.search_node(&root_node, key, Ghost(root.0 as int), Ghost(self.height@), Ghost(None), Ghost(None))
    }

    /// The value that the tree of the node `node`, stored at `o`, gives to
    /// `key`.
    #[verifier::rlimit(60)]
    fn search_node(
        &self,
        node: &Node,
        key: &str,
        Ghost(o): Ghost<int>,
        Ghost(h): Ghost<nat>,
        Ghost(lo): Ghost<Option<Key>>,
        Ghost(hi): Ghost<Option<Key>>,
    ) -> (r: Result<Option<u64>, Error>)
        requires
            subtree(self.pager.disk(), o, h, lo, hi),
            node_at(self.pager.disk(), o) == Some(node@),
        ensures
            r is Ok,
            r->Ok_0 == lookup(self.pager.disk(), o, h, key_of(key@)),
        decreases h,
    {
        match &node.node_kind {
            NodeKind::Internal { keys, children, occupied_space } => {
                let idx = find_child(keys, key);
                if idx >= children.len() {
                    return Err(Error::InternalNodeNoChild);
                }
                let child_offset = children[idx];
                proof {
                    reveal_with_fuel(subtree, 2);
                    assert(offsets_view(children@)[idx as int] == child_offset.0);
                }
                let child_node = self.read_node(&child_offset)?;
                self.search_node(
                    &child_node,
                    key,
                    Ghost(child_offset.0 as int),
                    Ghost((h - 1) as nat),
                    Ghost(child_lo(keys_view(keys@), lo, idx as int)),
                    Ghost(child_hi(keys_view(keys@), hi, idx as int)),
                )
            },
            NodeKind::Leaf { next, previous, key_value_pairs, occupied_space } => {
                match find_pair(key_value_pairs, key) {
                    Ok(idx) => Ok(Some(key_value_pairs[idx].value)),
                    Err(_) => Ok(None),
                }
            },
        }
    }
}

/// Writes a node to a page taken for it and gives the offset of the page.
/// The page was not in use and now is; every page that was in use is as it
/// was. A node that `storable` admits is then the node stored there, and
/// occupies no more than a page. Fails, and changes nothing, where the node
/// cannot be stored or the storage cannot grow.
#[verifier::rlimit(60)]
pub(crate) fn write_node(pager: &mut Pager, node: &Node) -> (r: Result<Offset, Error>)
    requires
        old(pager).wf(),
    ensures
        match r {
            Ok(o) => {
                &&& grew(*old(pager), *final(pager))
                &&& !live(*old(pager), o.0 as int)
                &&& live(*final(pager), o.0 as int)
                &&& encode(node@) is Ok
                &&& page_at(final(pager).disk(), o.0 as int) == layout(node@)
                &&& storable(node@) ==> node_at(final(pager).disk(), o.0 as int) == Some(node@)
                    && space_at(final(pager).disk(), o.0 as int) <= PAGE_SIZE
                &&& old(pager).curser <= final(pager).curser <= old(pager).curser + PAGE_SIZE
                &&& one_more(*old(pager), *final(pager), o.0 as int)
            },
            Err(e) => {
                &&& *final(pager) == *old(pager)
                &&& encode(node@) is Err || !room(*old(pager), 1)
                &&& !(e is KeyNotFound)
                &&& storable(node@) ==> e is UnexpectedError
            },
        },
        encode(node@) is Ok && room(*old(pager), 1) ==> r is Ok,
{
    proof {
        if storable(node@) {
            lemma_storable_fault(node@);
        }
    }
    let page = Page::try_from(node)?;
    let r = pager.write_page(&page);
    proof {
        if let Ok(o) = r {
            lemma_took_grew(*old(pager), *pager, o.0 as int, page@);
            lemma_took_one(*old(pager), *pager, o.0 as int, page@);
            if storable(node@) {
                lemma_decode_encode(node@);
            }
        }
    }
    r
}

/// Whether `post` is `pre` after `n` was made the root: page zero was
/// written anew, and nothing else has changed.
pub open spec fn rooted(pre: Pager, post: Pager, n: Offset) -> bool {
    &&& post.curser == pre.curser
    &&& post.config.root_page == Some(n)
    &&& post.config.first_free_page == pre.config.first_free_page
    &&& post.disk().len() == pre.disk().len()
    &&& forall|i: int| 1 <= i < pre.disk().len() ==> post.disk()[i] == pre.disk()[i]
}

/// Making a tree the root, and giving back pages that are in use and not
/// pages of the tree, leaves a pager that holds the tree, sound, with the
/// values it had.
#[verifier::rlimit(60)]
pub proof fn lemma_commit(p1: Pager, p2: Pager, p3: Pager, n: Offset, h: nat, fq: Seq<usize>)
    requires
        p1.wf(),
        subtree(p1.disk(), n.0 as int, h, None, None),
        forall|p: int| #[trigger]
            in_subtree(p1.disk(), n.0 as int, h, p) ==> live(p1, p) && !fq.contains(p as usize),
        forall|x: usize| fq.contains(x) ==> live(p1, x as int),
        rooted(p1, p2, n),
        p2.wf() && can_free(p2, fq) ==> freed_pages(p2, p3, fq),
    ensures
        p2.wf(),
        can_free(p2, fq),
        sound(p3, h),
        root_of(p3) == n.0,
        pages(p3.disk(), n.0 as int, h) == pages(p1.disk(), n.0 as int, h),
        forall|k: Key| #[trigger]
            lookup(p3.disk(), n.0 as int, h, k) == lookup(p1.disk(), n.0 as int, h, k),
{
    let d1 = p1.disk();
    let d2 = p2.disk();
    let d3 = p3.disk();
    let free = p1.free_list()->Some_0;
    lemma_chain_props(d1, p1.head());
    assert forall|p: int| is_page(d1, p) implies is_page(d2, p) && page_at(d2, p) == page_at(
        d1,
        p,
    ) by {
        lemma_page_index_distinct(p, 0);
    }
    assert forall|i: int| 0 <= i < free.len() implies {
        let o = #[trigger] free[i];
        page_at(d2, o).len() == PAGE_SIZE && crate::pager::next_free(d2, o)
            == crate::pager::next_free(d1, o)
    } by {
        assert(is_page(d1, free[i]));
    }
    lemma_chain_frame(d1, d2, p1.head());
    assert(p2.wf());
    assert(can_free(p2, fq)) by {
        assert forall|i: int| 0 <= i < fq.len() implies is_page(d2, #[trigger] fq[i] as int)
            && !p2.free_list()->Some_0.contains(fq[i] as int) by {
            assert(fq.contains(fq[i]));
            assert(live(p1, fq[i] as int));
        }
    }
    assert forall|p: int| #[trigger] in_subtree(d1, n.0 as int, h, p) implies is_page(d3, p)
        && page_at(d3, p) == page_at(d1, p) by {
        assert(live(p1, p));
        assert(is_page(d2, p));
        assert(p as usize as int == p);
        if exists|i: int| 0 <= i < fq.len() && fq[i] == p {
            let i = choose|i: int| 0 <= i < fq.len() && fq[i] == p;
            assert(fq.contains(fq[i]));
        }
        assert(page_at(d3, p) == page_at(d2, p));
    }
    lemma_subtree_frame(d1, d3, n.0 as int, h, None, None);
    assert forall|p: int| #[trigger] in_subtree(d3, n.0 as int, h, p) implies live(p3, p) by {
        assert(in_subtree(d1, n.0 as int, h, p));
        assert(live(p1, p));
        assert(p as usize as int == p);
        lemma_insert_all_contains(p2.free_list()->Some_0, fq, p);
        if exists|i: int| 0 <= i < fq.len() && fq[i] == p {
            let i = choose|i: int| 0 <= i < fq.len() && fq[i] == p;
            assert(fq.contains(fq[i]));
        }
    }
}

/// A map that gives every key what `before` gives it is `before`.
pub proof fn lemma_view_same(before: BTree, after: BTree)
    requires
        forall|k: Key| #[trigger]
            lookup(after.pager.disk(), after.root(), after.height@, k) == lookup(
                before.pager.disk(),
                before.root(),
                before.height@,
                k,
            ),
    ensures
        after@ == before@,
{
    assert forall|s: Seq<char>| #[trigger] after@.contains_key(s) <==> before@.contains_key(s) by {
        assert(lookup(after.pager.disk(), after.root(), after.height@, key_of(s)) == lookup(
            before.pager.disk(),
            before.root(),
            before.height@,
            key_of(s),
        ));
    }
    assert forall|s: Seq<char>| #[trigger] after@.contains_key(s) implies after@[s]
        == before@[s] by {
        assert(lookup(after.pager.disk(), after.root(), after.height@, key_of(s)) == lookup(
            before.pager.disk(),
            before.root(),
            before.height@,
            key_of(s),
        ));
    }
    assert(after@ =~= before@);
}

/// A pager that holds a sound tree holds it, with the values it had, after
/// pages are taken.
pub proof fn lemma_sound_grew(pre: Pager, post: Pager, h: nat)
    requires
        sound(pre, h),
        grew(pre, post),
    ensures
        sound(post, h),
        forall|k: Key| #[trigger]
            lookup(post.disk(), root_of(post), h, k) == lookup(pre.disk(), root_of(pre), h, k),
{
    lemma_subtree_grew(pre, post, root_of(pre), h, None, None);
}

impl BTree {
    /// Makes the tree stored at `root` the tree of the index, and gives the
    /// pages of `fq` back.
    pub(crate) fn commit(&mut self, fq: FreeQueue, root: Offset, Ghost(h): Ghost<nat>) -> (r: Result<
        (),
        Error,
    >)
        requires
            old(self).pager.wf(),
            forall|x: usize| fq@.contains(x) ==> live(old(self).pager, x as int),
        ensures
            final(self).height@ == h,
            final(self).root() == root.0,
            r is Ok,
            final(self).pager.wf(),
            durable(final(self).pager),
            final(self).pager.curser == old(self).pager.curser,
            forall|x: usize|
                fq@.contains(x) ==> #[trigger] final(self).pager.free_list()->Some_0.contains(
                    x as int,
                ),
            forall|p: int| #[trigger]
                live(old(self).pager, p) && !fq@.contains(p as usize) ==> live(
                    final(self).pager,
                    p,
                ) && page_at(final(self).pager.disk(), p) == page_at(old(self).pager.disk(), p),
            subtree(old(self).pager.disk(), root.0 as int, h, None, None) && (forall|p: int| #[trigger]
                in_subtree(old(self).pager.disk(), root.0 as int, h, p) ==> live(
                    old(self).pager,
                    p,
                ) && !fq@.contains(p as usize)) ==> final(self).valid() && pages(
                final(self).pager.disk(),
                root.0 as int,
                h,
            ) == pages(old(self).pager.disk(), root.0 as int, h) && forall|k: Key| #[trigger]
                lookup(final(self).pager.disk(), root.0 as int, h, k) == lookup(
                    old(self).pager.disk(),
                    root.0 as int,
                    h,
                    k,
                ),
    {
        let ghost p1 = self.pager;
        let ghost queue = fq@;
        let _ = self.pager.set_root_page(root);
        let ghost p2 = self.pager;
        proof {
            lemma_commit_queue(p1, p2, queue, root);
        }
        let freed = self.pager.free_pages(fq);
        self.height = Ghost(h);
        proof {
            assert forall|x: usize| queue.contains(x) implies #[trigger] self.pager.free_list()->Some_0.contains(
                x as int,
            ) by {
                let i = choose|i: int| 0 <= i < queue.len() && queue[i] == x;
                lemma_insert_all_contains(p2.free_list()->Some_0, queue, x as int);
            }
            lemma_commit_durable(p1, p2, self.pager, root, queue);
            lemma_commit_rest(p1, p2, self.pager, root, queue);
            if subtree(p1.disk(), root.0 as int, h, None, None) && (forall|p: int| #[trigger]
                in_subtree(p1.disk(), root.0 as int, h, p) ==> live(p1, p) && !queue.contains(
                    p as usize,
                )) {
                lemma_commit(p1, p2, self.pager, root, h, queue);
            }
        }
        freed
    }
}

/// Whether every page that was in use in `pre` and was no page of its tree
/// is in use in `post`, holds what it held, and is no page of the tree of
/// `post`: whatever the index does to its tree, it leaves what else the
/// storage holds alone.
pub open spec fn rest_kept(pre: Pager, h: nat, post: Pager, h2: nat) -> bool {
    forall|p: int| #[trigger]
        live(pre, p) && !in_subtree(pre.disk(), root_of(pre), h, p) ==> live(post, p) && page_at(
            post.disk(),
            p,
        ) == page_at(pre.disk(), p) && !in_subtree(post.disk(), root_of(post), h2, p)
}

/// Making a root and giving pages back leaves every page that was in use and
/// is not given back in use, with what it held.
pub proof fn lemma_commit_rest(p1: Pager, p2: Pager, p3: Pager, n: Offset, fq: Seq<usize>)
    requires
        p1.wf(),
        forall|x: usize| fq.contains(x) ==> live(p1, x as int),
        rooted(p1, p2, n),
        p2.wf() && can_free(p2, fq) ==> freed_pages(p2, p3, fq),
    ensures
        forall|p: int| #[trigger]
            live(p1, p) && !fq.contains(p as usize) ==> live(p3, p) && page_at(p3.disk(), p)
                == page_at(p1.disk(), p),
{
    lemma_commit_queue(p1, p2, fq, n);
    let d1 = p1.disk();
    let d2 = p2.disk();
    let free = p1.free_list()->Some_0;
    lemma_chain_props(d1, p1.head());
    assert forall|i: int| 0 <= i < free.len() implies {
        let o = #[trigger] free[i];
        page_at(d2, o).len() == PAGE_SIZE && crate::pager::next_free(d2, o)
            == crate::pager::next_free(d1, o)
    } by {
        assert(is_page(d1, free[i]));
        lemma_page_index_distinct(free[i], 0);
    }
    lemma_chain_frame(d1, d2, p1.head());
    assert forall|p: int| #[trigger] live(p1, p) && !fq.contains(p as usize) implies live(p3, p)
        && page_at(p3.disk(), p) == page_at(p1.disk(), p) by {
        lemma_page_index_distinct(p, 0);
        assert(is_page(d2, p));
        assert(p as usize as int == p);
        lemma_insert_all_contains(p2.free_list()->Some_0, fq, p);
        if exists|i: int| 0 <= i < fq.len() && fq[i] == p {
            let i = choose|i: int| 0 <= i < fq.len() && fq[i] == p;
            assert(fq.contains(fq[i]));
        }
        assert(page_at(p3.disk(), p) == page_at(d2, p));
    }
}

/// After a root was made, a sound pager is sound, and pages that were in use
/// can be given back.
pub proof fn lemma_commit_queue(p1: Pager, p2: Pager, fq: Seq<usize>, n: Offset)
    requires
        p1.wf(),
        forall|x: usize| fq.contains(x) ==> live(p1, x as int),
        rooted(p1, p2, n),
    ensures
        p2.wf(),
        can_free(p2, fq),
{
    let d1 = p1.disk();
    let d2 = p2.disk();
    let free = p1.free_list()->Some_0;
    lemma_chain_props(d1, p1.head());
    assert forall|p: int| is_page(d1, p) implies is_page(d2, p) && page_at(d2, p) == page_at(
        d1,
        p,
    ) by {
        lemma_page_index_distinct(p, 0);
    }
    assert forall|i: int| 0 <= i < free.len() implies {
        let o = #[trigger] free[i];
        page_at(d2, o).len() == PAGE_SIZE && crate::pager::next_free(d2, o)
            == crate::pager::next_free(d1, o)
    } by {
        assert(is_page(d1, free[i]));
    }
    lemma_chain_frame(d1, d2, p1.head());
    assert forall|i: int| 0 <= i < fq.len() implies is_page(d2, #[trigger] fq[i] as int)
        && !p2.free_list()->Some_0.contains(fq[i] as int) by {
        assert(fq.contains(fq[i]));
        assert(live(p1, fq[i] as int));
    }
}

impl BTree {
    /// The bytes of the storage: what is to be kept, and what `open` takes.
    pub fn image(&self) -> (image: Vec<u8>)
        ensures
            image@.len() == self.pager.disk().len() * PAGE_SIZE,
            pages_of(image@) == self.pager.disk(),
    {
        self.pager.image()
    }

    /// Opens the index whose bytes are `image`. An empty storage gets page
    /// zero and an empty leaf as its root, and is then a sound index that
    /// holds nothing. Of any other storage the pages are taken as they are: it
    /// is a sound index where it holds a sound tree. Where page zero names no
    /// root, an empty leaf is written and made the root. Fails as the pager
    /// does where the storage is not a whole number of pages or page zero
    /// cannot be read.
    #[verifier::rlimit(60)]
    pub fn open(image: &[u8]) -> (r: Result<BTree, Error>)
        ensures
            image@.len() == 0 ==> r is Ok && r->Ok_0.valid() && durable(r->Ok_0.pager) && r->Ok_0@
                == Map::<Seq<char>, u64>::empty() && r->Ok_0.height@ == 0
                && r->Ok_0.pager.disk().len() == 2,
            image@.len() == 0 ==> forall|len: nat| #[trigger] well_filled(r->Ok_0, len),
            image@.len() == 0 ==> all_snug(r->Ok_0),
            image@.len() == 0 ==> space_at(r->Ok_0.pager.disk(), r->Ok_0.root()) == LEAF_HEADER_SIZE
                + 1 && r->Ok_0.pager.curser == 2 * PAGE_SIZE,
            image@.len() % (PAGE_SIZE as nat) != 0 ==> r is Err && r->Err_0 is UnexpectedError,
            names_root(image@) ==> r is Ok && opened(image@, r->Ok_0),
            names_no_root(image@) ==> r is Ok && r->Ok_0.valid() && r->Ok_0@ == Map::<
                Seq<char>,
                u64,
            >::empty() && r->Ok_0.height@ == 0,
            image@.len() > 0 && image@.len() % (PAGE_SIZE as nat) == 0 && !(Page::holds_usize(
                pages_of(image@)[0],
                0,
            ) && Page::holds_usize(pages_of(image@)[0], 8)) ==> r is Err && r->Err_0
                is UnexpectedError,
    {
        let mut pager = Pager::open(image)?;
        let ghost opened = pager;
        let ghost unrooted = names_no_root(image@);
        if pager.config.root_page.is_none() {
            let root = Node::new(
                NodeKind::Leaf {
                    next: None,
                    previous: None,
                    key_value_pairs: Vec::new(),
                    occupied_space: 0,
                },
                None,
            );
            proof {
                if image@.len() == 0 {
                    assert(opened.pages@.len() == opened.disk().len());
                    assert(opened.head() == 0);
                    assert(crate::pager::free_chain(opened.disk(), 0) == Some(Seq::<int>::empty()));
                    assert(opened.wf());
                    assert(pairs_view(Seq::<KeyValuePair>::empty()) =~= Seq::<(Key, u64)>::empty());
                    assert(storable(root@));
                    assert(encode(root@) is Ok);
                    lemma_decode_encode(root@);
                }
                if unrooted {
                    assert(opened.head() == crate::node::word_at(pages_of(image@)[0], 8));
                    assert(opened.wf());
                    assert(pairs_view(Seq::<KeyValuePair>::empty()) =~= Seq::<(Key, u64)>::empty());
                    assert(encode(root@) is Ok);
                }
            }
            let page = Page::try_from(&root)?;
            let root_offset = pager.write_page(&page)?;
            let ghost taken = pager;
            pager.set_root_page(root_offset)?;
            let tree = BTree { pager, height: Ghost(0) };
            proof {
                if image@.len() == 0 {
                    lemma_empty_tree(tree, root_offset);
                    lemma_config_words(Some(root_offset.0), None);
                    crate::node::lemma_decode_space(page_at(tree.pager.disk(), tree.root()));
                    assert(all_snug(tree)) by {
                        assert forall|p: int| #[trigger]
                            in_subtree(tree.pager.disk(), tree.root(), 0, p) && p
                                != tree.root() implies snug_at(tree.pager.disk(), p) by {}
                    }
                    assert forall|len: nat| #[trigger] well_filled(tree, len) by {
                        let disk = tree.pager.disk();
                        assert(node_at(disk, tree.root()) is Some);
                        assert(pair_keys(Seq::<(Key, u64)>::empty()) =~= Seq::<Key>::empty());
                        assert forall|p: int| #[trigger]
                            in_subtree(disk, tree.root(), 0, p) implies even_at(disk, p, len) && (
                        p != tree.root() ==> snug_at(disk, p)) by {
                            assert(p == tree.root());
                        }
                    }
                }
                if unrooted {
                    lemma_first_root(opened, taken, tree.pager, root_offset, root@);
                    assert(tree@ =~= Map::<Seq<char>, u64>::empty());
                }
            }
            Ok(tree)
        } else {
            let ghost h = choose|h: nat| sound(pager, h);
            Ok(BTree { pager, height: Ghost(h) })
        }
    }
}

/// Whether a storage is a whole number of pages, at least one, and page
/// zero names a root and can be read.
pub open spec fn names_root(image: Seq<u8>) -> bool {
    &&& image.len() > 0
    &&& image.len() % (PAGE_SIZE as nat) == 0
    &&& Page::holds_usize(pages_of(image)[0], 0)
    &&& Page::holds_usize(pages_of(image)[0], 8)
    &&& crate::node::word_at(pages_of(image)[0], 0) != 0
}

/// Whether a storage is a whole number of pages, at least one, and page
/// zero can be read, names no root, and leads to a free list in order, with
/// a free page in it or room for one more page behind the storage.
pub open spec fn names_no_root(image: Seq<u8>) -> bool {
    &&& image.len() > 0
    &&& image.len() % (PAGE_SIZE as nat) == 0
    &&& Page::holds_usize(pages_of(image)[0], 0)
    &&& Page::holds_usize(pages_of(image)[0], 8)
    &&& crate::node::word_at(pages_of(image)[0], 0) == 0
    &&& crate::pager::free_chain(
        pages_of(image),
        crate::node::word_at(pages_of(image)[0], 8) as int,
    ) is Some
    &&& crate::pager::free_chain(
        pages_of(image),
        crate::node::word_at(pages_of(image)[0], 8) as int,
    )->Some_0.len() > 0 || image.len() + PAGE_SIZE <= usize::MAX
}

/// An empty leaf written to a page taken for it and then made the root is
/// the tree of a sound index that holds nothing.
pub proof fn lemma_first_root(p0: Pager, p1: Pager, p2: Pager, n: Offset, node: NodeView)
    requires
        p0.wf(),
        p1.wf(),
        crate::pager::took_page(p0, p1, n.0 as int, crate::node::layout(node)),
        node.kind == (KindView::Leaf { next: None, previous: None, pairs: Seq::empty() }),
        encode(node) is Ok,
        rooted(p1, p2, n),
    ensures
        sound(p2, 0),
        root_of(p2) == n.0,
        forall|k: Key| #[trigger] lookup(p2.disk(), n.0 as int, 0, k) is None,
{
    let o = n.0 as int;
    let empty = Seq::<usize>::empty();
    lemma_took_grew(p0, p1, o, crate::node::layout(node));
    lemma_decode_encode(node);
    crate::node::lemma_decode_space(page_at(p1.disk(), o));
    assert(node_at(p1.disk(), o) == Some(node));
    assert(subtree(p1.disk(), o, 0, None, None));
    assert forall|p: int| #[trigger] in_subtree(p1.disk(), o, 0, p) implies live(p1, p)
        && !empty.contains(p as usize) by {
        assert(p == o);
    }
    assert(crate::pager::insert_all(p1.free_list()->Some_0, empty) == p1.free_list()->Some_0);
    lemma_commit(p1, p2, p2, n, 0, empty);
    assert forall|k: Key| #[trigger] lookup(p2.disk(), o, 0, k) is None by {
        assert(lookup(p1.disk(), o, 0, k) == pairs_get(Seq::<(Key, u64)>::empty(), k));
    }
}

/// Whether `tree` is what opening the storage `image`, whose page zero names
/// a root, gives: its pages are the pages of the storage, its root and the
/// head of its free list are what page zero names, the storage ends where
/// the image ends, and it is a sound index where the storage holds a sound
/// tree.
pub open spec fn opened(image: Seq<u8>, tree: BTree) -> bool {
    &&& tree.pager.disk() == pages_of(image)
    &&& offset_view(tree.pager.config.root_page) == crate::pager::link_of(
        crate::node::word_at(pages_of(image)[0], 0),
    )
    &&& offset_view(tree.pager.config.first_free_page) == crate::pager::link_of(
        crate::node::word_at(pages_of(image)[0], 8),
    )
    &&& tree.pager.curser == image.len()
    &&& (exists|h: nat| sound(tree.pager, h)) ==> tree.valid()
}

/// An index whose root is an empty leaf in the second of two pages, with no
/// free page, is sound and holds nothing.
pub proof fn lemma_empty_tree(tree: BTree, root: Offset)
    requires
        tree.pager.disk().len() == 2,
        tree.pager.curser == 2 * PAGE_SIZE,
        tree.height@ == 0,
        root.0 == PAGE_SIZE,
        tree.pager.config.root_page == Some(root),
        tree.pager.config.first_free_page is None,
        decode(tree.pager.disk()[1]) is Ok,
        decode(tree.pager.disk()[1])->Ok_0.0.kind == (KindView::Leaf {
            next: None,
            previous: None,
            pairs: Seq::empty(),
        }),
        decode(tree.pager.disk()[1])->Ok_0.1 < PAGE_SIZE,
    ensures
        tree.valid(),
        tree@ == Map::<Seq<char>, u64>::empty(),
{
    let disk = tree.pager.disk();
    assert(crate::pager::free_chain(disk, 0) == Some(Seq::<int>::empty()));
    assert(page_at(disk, PAGE_SIZE as int) == disk[1]);
    assert(is_page(disk, PAGE_SIZE as int));
    assert(node_at(disk, PAGE_SIZE as int) is Some);
    assert(subtree(disk, PAGE_SIZE as int, 0, None, None));
    assert forall|s: Seq<char>| !(#[trigger] tree@.contains_key(s)) by {
        assert(lookup(disk, PAGE_SIZE as int, 0, key_of(s)) == pairs_get(
            Seq::<(Key, u64)>::empty(),
            key_of(s),
        ));
    }
    assert(tree@ =~= Map::<Seq<char>, u64>::empty());
}

/// What an operation that takes pages, makes a root and gives pages of the
/// old tree back leaves alone: every page that was in use and was no page of
/// the old tree.
pub proof fn lemma_rest_kept(
    pre: Pager,
    h: nat,
    mid: Pager,
    post: Pager,
    n: Offset,
    h2: nat,
    fq0: Seq<usize>,
    fq: Seq<usize>,
)
    requires
        grew(pre, mid),
        from_tree(pre.disk(), root_of(pre), h, fq),
        settled(pre, mid, root_of(pre), h, n.0 as int, h2, fq0),
        root_of(post) == n.0,
        pages(post.disk(), n.0 as int, h2) == pages(mid.disk(), n.0 as int, h2),
        forall|p: int| #[trigger]
            live(mid, p) && !fq.contains(p as usize) ==> live(post, p) && page_at(post.disk(), p)
                == page_at(mid.disk(), p),
    ensures
        rest_kept(pre, h, post, h2),
{
    assert forall|p: int| #[trigger]
        live(pre, p) && !in_subtree(pre.disk(), root_of(pre), h, p) implies live(post, p)
        && page_at(post.disk(), p) == page_at(pre.disk(), p) && !in_subtree(
        post.disk(),
        root_of(post),
        h2,
        p,
    ) by {
        assert(live(mid, p));
        if fq.contains(p as usize) {
            let i = choose|i: int| 0 <= i < fq.len() && fq[i] == p as usize;
            assert(in_subtree(pre.disk(), root_of(pre), h, fq[i] as int));
            assert(mid.wf());
            assert(p as usize as int == p);
        }
        if in_subtree(post.disk(), n.0 as int, h2, p) {
            assert(pages(post.disk(), n.0 as int, h2).contains(p));
            assert(in_subtree(mid.disk(), n.0 as int, h2, p));
        }
    }
}

/// Taking pages leaves every page that was in use alone, and none of them
/// becomes a page of a sound tree that stays where it is.
pub proof fn lemma_rest_grew(pre: Pager, h: nat, post: Pager)
    requires
        sound(pre, h),
        grew(pre, post),
    ensures
        rest_kept(pre, h, post, h),
{
    lemma_subtree_grew(pre, post, root_of(pre), h, None, None);
    assert forall|p: int| #[trigger]
        live(pre, p) && !in_subtree(pre.disk(), root_of(pre), h, p) implies !in_subtree(
        post.disk(),
        root_of(post),
        h,
        p,
    ) by {
        if in_subtree(post.disk(), root_of(post), h, p) {
            assert(pages(post.disk(), root_of(post), h).contains(p));
        }
    }
}

/// Whether what the pager knows is what the storage holds: page zero names
/// the root of the pager, and names as the first free page a page of the
/// free list of the pager, or none where there is no free page. A storage
/// that is opened anew is then opened with the same tree, and with a free
/// list that holds no page of it.
pub open spec fn durable(pager: Pager) -> bool {
    let page0 = pager.disk()[0];
    &&& Page::holds_usize(page0, 0)
    &&& Page::holds_usize(page0, 8)
    &&& crate::node::word_at(page0, 0) == link_word(offset_view(pager.config.root_page))
    &&& if crate::node::word_at(page0, 8) == 0 {
        pager.free_list()->Some_0.len() == 0
    } else {
        pager.free_list()->Some_0.contains(crate::node::word_at(page0, 8) as int)
    }
}

/// The page that stores a configuration spells its root and its first free
/// page.
pub proof fn lemma_config_words(root: Option<usize>, first_free: Option<usize>)
    ensures
        config_bytes(root, first_free).len() == PAGE_SIZE,
        crate::node::word_at(config_bytes(root, first_free), 0) == link_word(root),
        crate::node::word_at(config_bytes(root, first_free), 8) == link_word(first_free),
{
    let page = config_bytes(root, first_free);
    crate::bytes::lemma_be_bytes_len(link_word(root), 8);
    crate::bytes::lemma_be_bytes_len(link_word(first_free), 8);
    crate::bytes::lemma_pow256_8();
    crate::bytes::lemma_be_value_of_bytes(link_word(root), 8);
    crate::bytes::lemma_be_value_of_bytes(link_word(first_free), 8);
    assert(page.subrange(0, 8) =~= crate::bytes::be_bytes(link_word(root), 8));
    assert(page.subrange(8, 16) =~= crate::bytes::be_bytes(link_word(first_free), 8));
}

/// After a root was made and pages were given back, what the pager knows is
/// what the storage holds.
pub proof fn lemma_commit_durable(p1: Pager, p2: Pager, p3: Pager, n: Offset, fq: Seq<usize>)
    requires
        p1.wf(),
        p2.wf(),
        rooted(p1, p2, n),
        p2.disk()[0] == config_bytes(Some(n.0), offset_view(p1.config.first_free_page)),
        freed_pages(p2, p3, fq),
    ensures
        durable(p3),
{
    let free = p2.free_list()->Some_0;
    lemma_chain_props(p2.disk(), p2.head());
    lemma_config_words(Some(n.0), offset_view(p1.config.first_free_page));
    if free.len() == 0 && fq.len() > 0 {
        lemma_config_words(Some(n.0), Some(fq[0]));
        lemma_insert_all_contains(free, fq, fq[0] as int);
        assert(is_page(p2.disk(), fq[0] as int)) by {
            lemma_chain_props(p3.disk(), p3.head());
            let final_free = p3.free_list()->Some_0;
            let i = choose|i: int| 0 <= i < final_free.len() && final_free[i] == fq[0] as int;
            assert(is_page(p3.disk(), final_free[i]));
        }
    } else {
        let f = crate::node::word_at(p2.disk()[0], 8);
        if f != 0 {
            assert(free[0] == f);
            lemma_insert_all_contains(free, fq, f as int);
        } else {
            assert(fq.len() == 0);
        }
    }
}

} // verus!
