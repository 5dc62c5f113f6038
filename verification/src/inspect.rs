//! Measures of the tree: its depth, the number of its nodes, the size of
//! its storage.

use crate::btree::{BTree, read_node_at};
use crate::error::Error;
use crate::key::Key;
use crate::node::{keys_view, KindView, NodeKind, offsets_view};
use crate::pager::{Disk, Offset, Pager};
use crate::tree::{child_hi, child_lo, lemma_subtree_internal, node_at, subtree};
use vstd::prelude::*;

verus! {

/// The number of nodes in the trees of height `hc` stored at the first `n`
/// of `children`.
pub open spec fn children_count(disk: Disk, children: Seq<usize>, hc: nat, n: int) -> nat
    decreases hc, 1nat, n,
{
    if n <= 0 || n > children.len() {
        0
    } else {
        children_count(disk, children, hc, n - 1) + node_count(disk, children[n - 1] as int, hc)
    }
}

/// The number of nodes in the tree of height `h` stored at `o`: one for a
/// leaf, and for an internal node one more than its children have together.
pub open spec fn node_count(disk: Disk, o: int, h: nat) -> nat
    decreases h, 0nat, 0int,
{
    if h == 0 {
        1
    } else {
        match node_at(disk, o) {
            Some(node) => match node.kind {
                KindView::Internal { keys, children } => 1 + children_count(
                    disk,
                    children,
                    (h - 1) as nat,
                    children.len() as int,
                ),
                KindView::Leaf { .. } => 1,
            },
            None => 1,
        }
    }
}

/// More children have no fewer nodes.
pub proof fn lemma_children_count_grows(disk: Disk, children: Seq<usize>, hc: nat, a: int, b: int)
    requires
        0 <= a <= b <= children.len(),
    ensures
        children_count(disk, children, hc, a) <= children_count(disk, children, hc, b),
    decreases b - a,
{
    if a < b {
        lemma_children_count_grows(disk, children, hc, a, b - 1);
    }
}

/// Counts the nodes of the tree of height `h` stored at `offset`.
fn count_below(pager: &Pager, offset: &Offset, Ghost(h): Ghost<nat>, Ghost(lo): Ghost<Option<Key>>, Ghost(hi): Ghost<Option<Key>>) -> (r: Result<usize, Error>)
    requires
        subtree(pager.disk(), offset.0 as int, h, lo, hi),
    ensures
        node_count(pager.disk(), offset.0 as int, h) <= usize::MAX ==> r is Ok && r->Ok_0
            == node_count(pager.disk(), offset.0 as int, h),
        node_count(pager.disk(), offset.0 as int, h) > usize::MAX ==> r is Err
            && r->Err_0 is UnexpectedError,
    decreases h,
{
    let node = read_node_at(pager, offset)?;
    match node.node_kind {
        NodeKind::Internal { keys, children, occupied_space } => {
            let ghost all_keys = keys_view(keys@);
            let ghost kids = offsets_view(children@);
            let ghost hc = (h - 1) as nat;
            proof {
                lemma_subtree_internal(pager.disk(), offset.0 as int, h, lo, hi);
            }
            let mut sum: usize = 0;
            let mut i: usize = 0;
            while i < children.len()
                invariant
                    i <= children.len(),
                    h > 0,
                    hc == h - 1,
                    kids == offsets_view(children@),
                    sum == children_count(pager.disk(), kids, hc, i as int),
                    node_at(pager.disk(), offset.0 as int) is Some,
                    node_at(pager.disk(), offset.0 as int)->Some_0.kind == (KindView::Internal {
                        keys: all_keys,
                        children: kids,
                    }),
                    forall|j: int|
                        0 <= j < kids.len() ==> subtree(
                            pager.disk(),
                            #[trigger] kids[j] as int,
                            hc,
                            child_lo(all_keys, lo, j),
                            child_hi(all_keys, hi, j),
                        ),
                decreases children.len() - i,
            {
                let child = children[i];
                proof {
                    assert(kids[i as int] == child.0);
                    lemma_children_count_grows(pager.disk(), kids, hc, i + 1, kids.len() as int);
                }
                let c = count_below(
                    pager,
                    &child,
                    Ghost(hc),
                    Ghost(child_lo(all_keys, lo, i as int)),
                    Ghost(child_hi(all_keys, hi, i as int)),
                )?;
                if c > usize::MAX - sum {
                    return Err(Error::UnexpectedError("Too many nodes to count".to_owned()));
                }
                sum = sum + c;
                i = i + 1;
            }
            if sum == usize::MAX {
                return Err(Error::UnexpectedError("Too many nodes to count".to_owned()));
            }
            Ok(sum + 1)
        },
        NodeKind::Leaf { .. } => Ok(1),
    }
}

/// Finds how many nodes lie on the way from the node stored at `offset` to
/// a leaf below it, both counted.
fn depth_below(pager: &Pager, offset: &Offset, Ghost(h): Ghost<nat>, Ghost(lo): Ghost<Option<Key>>, Ghost(hi): Ghost<Option<Key>>) -> (r: Result<usize, Error>)
    requires
        subtree(pager.disk(), offset.0 as int, h, lo, hi),
    ensures
        h < usize::MAX ==> r is Ok && r->Ok_0 == h + 1,
        h >= usize::MAX ==> r is Err && r->Err_0 is UnexpectedError,
    decreases h,
{
    let node = read_node_at(pager, offset)?;
    match node.node_kind {
        NodeKind::Internal { keys, children, occupied_space } => {
            let ghost all_keys = keys_view(keys@);
            let ghost kids = offsets_view(children@);
            let ghost hc = (h - 1) as nat;
            proof {
                lemma_subtree_internal(pager.disk(), offset.0 as int, h, lo, hi);
            }
            let mut deepest: usize = 0;
            let mut i: usize = 0;
            while i < children.len()
                invariant
                    i <= children.len(),
                    h > 0,
                    hc == h - 1,
                    children@.len() >= 1,
                    kids == offsets_view(children@),
                    deepest == if i == 0 {
                        0
                    } else {
                        h as int
                    },
                    forall|j: int|
                        0 <= j < kids.len() ==> subtree(
                            pager.disk(),
                            #[trigger] kids[j] as int,
                            hc,
                            child_lo(all_keys, lo, j),
                            child_hi(all_keys, hi, j),
                        ),
                decreases children.len() - i,
            {
                let child = children[i];
                proof {
                    assert(kids[i as int] == child.0);
                }
                let c = depth_below(
                    pager,
                    &child,
                    Ghost(hc),
                    Ghost(child_lo(all_keys, lo, i as int)),
                    Ghost(child_hi(all_keys, hi, i as int)),
                )?;
                if c > deepest {
                    deepest = c;
                }
                i = i + 1;
            }
            if deepest == usize::MAX {
                return Err(Error::UnexpectedError("Tree too deep to measure".to_owned()));
            }
            Ok(deepest + 1)
        },
        NodeKind::Leaf { .. } => Ok(1),
    }
}

impl BTree {
    /// The number of bytes in the storage.
    pub fn get_file_size(&self) -> (r: Result<u64, Error>)
        ensures
            self.pager.disk().len() * crate::page_layout::PAGE_SIZE <= u64::MAX ==> r is Ok
                && r->Ok_0 == self.pager.disk().len() * crate::page_layout::PAGE_SIZE,
            self.pager.disk().len() * crate::page_layout::PAGE_SIZE > u64::MAX ==> r is Err
                && r->Err_0 is UnexpectedError,
    {
        self.pager.get_file_size()
    }

    /// The number of nodes in the tree. Fails with `UnexpectedError` where
    /// `usize` cannot hold it.
    pub fn count_nodes(&self) -> (r: Result<usize, Error>)
        requires
            self.valid(),
        ensures
            node_count(self.pager.disk(), self.root(), self.height@) <= usize::MAX ==> r is Ok
                && r->Ok_0 == node_count(self.pager.disk(), self.root(), self.height@),
            node_count(self.pager.disk(), self.root(), self.height@) > usize::MAX ==> r is Err
                && r->Err_0 is UnexpectedError,
    {
        let offset = self.root_offset()?;
        count_below(&self.pager, &offset, Ghost(self.height@), Ghost(None), Ghost(None))
    }

    /// The depth of the tree: the number of nodes on the way from the root
    /// to a leaf, both counted. Every leaf lies at this depth. Fails with
    /// `UnexpectedError` where `usize` cannot hold it.
    pub fn get_depth(&self) -> (r: Result<usize, Error>)
        requires
            self.valid(),
        ensures
            self.height@ < usize::MAX ==> r is Ok && r->Ok_0 == self.height@ + 1,
            self.height@ >= usize::MAX ==> r is Err && r->Err_0 is UnexpectedError,
    {
        let offset = self.root_offset()?;
        depth_below(&self.pager, &offset, Ghost(self.height@), Ghost(None), Ghost(None))
    }
}

} // verus!
