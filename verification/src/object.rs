//! Objects of bytes, each stored in a page of its own under a key of the
//! index.

use crate::btree::{BTree, lemma_rest_grew, lemma_sound_grew, lemma_view_same, rest_kept, root_of};
use crate::error::Error;
use crate::key::key_of;
use crate::node::word_at;
use crate::outcome::plan;
use crate::page_layout::{KEY_MAX_SIZE, PAGE_SIZE, PTR_SIZE};
use crate::pager::{Disk, in_store, is_page, lemma_object_bytes, object_bytes, Offset, page_at};
use crate::tree::{in_subtree, lemma_took_grew, live, room};
use vstd::prelude::*;

verus! {

/// The object stored in the page at `o`: as many of the bytes after the
/// first eight as these spell, where that many fit the page.
pub open spec fn object_at(disk: Disk, o: int) -> Option<Seq<u8>> {
    if in_store(disk, o) && word_at(page_at(disk, o), 0) <= PAGE_SIZE - PTR_SIZE {
        Some(page_at(disk, o).subrange(8, 8 + word_at(page_at(disk, o), 0) as int))
    } else {
        None
    }
}

impl BTree {
    /// Stores `object` in a page of its own and puts `key` into the index
    /// with the offset of that page as its value. The key must not be in the
    /// index yet. An object of more than a page less eight bytes is refused
    /// with `UnexpectedError`, and nothing is written. A key of no byte or of
    /// more than 255 bytes is refused as `insert` refuses it, after the
    /// object was written: its page then stays in use, as after any other
    /// failure, and the index holds what it held. The object and the key are
    /// put in unless the storage had to grow beyond the offsets that the
    /// machine can hold.
    pub fn insert_object(&mut self, key: String, object: Vec<u8>) -> (r: Result<(), Error>)
        requires
            old(self).valid(),
            !old(self)@.contains_key(key@),
        ensures
            object@.len() > PAGE_SIZE - PTR_SIZE ==> r is Err && r->Err_0 is UnexpectedError
                && final(self).pager == old(self).pager && final(self).height == old(self).height,
            object@.len() <= PAGE_SIZE - PTR_SIZE && 1 <= key_of(key@).len() <= KEY_MAX_SIZE && room(
                old(self).pager,
                2 * old(self).height@ + 4,
            ) ==> r is Ok,
            key_of(key@).len() == 0 || key_of(key@).len() > KEY_MAX_SIZE ==> r is Err,
            r is Err ==> final(self).valid() && final(self)@ == old(self)@,
            r is Ok ==> {
                &&& final(self).valid()
                &&& final(self)@.dom() == old(self)@.dom().insert(key@)
                &&& forall|other: Seq<char>|
                    other != key@ && old(self)@.contains_key(other) ==> final(self)@[other] == old(
                        self,
                    )@[other]
                &&& object_at(final(self).pager.disk(), final(self)@[key@] as int) == Some(object@)
                &&& !live(old(self).pager, final(self)@[key@] as int)
            },
            rest_kept(old(self).pager, old(self).height@, final(self).pager, final(self).height@),
    {
        let ghost before = *self;
        let ghost pre = self.pager;
        let ghost h = self.height@;
        proof {
            lemma_view_same(before, *self);
            assert(crate::tree::grew(pre, pre));
            lemma_rest_grew(pre, h, pre);
        }
        let written = self.pager.write_object(&object);
        proof {
            if written is Err {
                assert(self.pager == pre);
            }
        }
        let o = written?;
        let ghost mid = self.pager;
        let ghost between = *self;
        proof {
            lemma_took_grew(pre, mid, o.0 as int, object_bytes(object@));
            lemma_sound_grew(pre, mid, h);
            lemma_view_same(before, *self);
            lemma_rest_grew(pre, h, mid);
            lemma_object_bytes(object@);
            assert(!in_subtree(mid.disk(), root_of(mid), h, o.0 as int)) by {
                crate::tree::lemma_subtree_grew(pre, mid, root_of(pre), h, None, None);
                if in_subtree(mid.disk(), root_of(mid), h, o.0 as int) {
                    assert(crate::tree::pages(mid.disk(), root_of(mid), h).contains(o.0 as int));
                    assert(in_subtree(pre.disk(), root_of(pre), h, o.0 as int));
                }
            }
        }
        let done = self.insert(key, o.0 as u64);
        proof {
            {
                assert forall|p: int| #[trigger]
                    live(pre, p) && !in_subtree(pre.disk(), root_of(pre), h, p) implies live(
                    self.pager,
                    p,
                ) && page_at(self.pager.disk(), p) == page_at(pre.disk(), p) && !in_subtree(
                    self.pager.disk(),
                    root_of(self.pager),
                    self.height@,
                    p,
                ) by {
                    assert(live(mid, p) && !in_subtree(mid.disk(), root_of(mid), h, p));
                }
            }
            if done is Ok {
                assert(self@[key@] == o.0 as u64);
                assert(o.0 as u64 as int == o.0);
                assert(live(mid, o.0 as int));
                assert(page_at(self.pager.disk(), o.0 as int) == object_bytes(object@));
            }
        }
        done
    }

    /// The object stored for `key`, or nothing where the index holds no such
    /// key. Fails where the value of the key is not the offset of a page that
    /// holds an object.
    pub fn search_object(&self, key: &str) -> (r: Result<Option<Vec<u8>>, Error>)
        requires
            self.valid(),
        ensures
            !self@.contains_key(key@) ==> r is Ok && r->Ok_0 is None,
            self@.contains_key(key@) ==> match object_at(self.pager.disk(), self@[key@] as int) {
                Some(object) => r is Ok && r->Ok_0 is Some && r->Ok_0->Some_0@ == object,
                None => r is Err,
            } || self@[key@] > usize::MAX,
            self@.contains_key(key@) && self@[key@] > usize::MAX ==> r is Err,
    {
        let found = self.search(key)?;
        match found {
            Some(v) => {
                if v > usize::MAX as u64 {
                    return Err(Error::UnexpectedError("Number too large for this machine".to_owned()));
                }
                let object = self.pager.get_object(&Offset(v as usize))?;
                Ok(Some(object))
            },
            None => Ok(None),
        }
    }

    /// Takes `key` out of the index and gives the page of its object back.
    /// A key that the index does not hold is refused with `KeyNotFound`, and
    /// nothing is written. Where the value of the key is the offset of a page
    /// that is in use and is no page of the tree, as it is for a key that
    /// `insert_object` put in, this succeeds where `delete` does, and leaves
    /// a sound index that holds what it held but the key, unless taking the
    /// key out fails. For any other value the key is taken out first, and
    /// giving the page back then fails or harms the tree.
    pub fn delete_object(&mut self, key: &str) -> (r: Result<(), Error>)
        requires
            old(self).valid(),
        ensures
            !old(self)@.contains_key(key@) ==> crate::delete::key_not_found(r, key@) && final(self).pager
                == old(self).pager && final(self).height == old(self).height,
            r is Ok ==> old(self)@.contains_key(key@),
            old(self)@.contains_key(key@) && live(old(self).pager, old(self)@[key@] as int)
                && !in_subtree(
                old(self).pager.disk(),
                old(self).root(),
                old(self).height@,
                old(self)@[key@] as int,
            ) && !(plan(
                old(self).pager.disk(),
                old(self).root(),
                old(self).height@,
                key_of(key@),
            ) is Stuck) && room(old(self).pager, 3 * old(self).height@ + 4) ==> r is Ok,
            old(self)@.contains_key(key@) && live(old(self).pager, old(self)@[key@] as int)
                && !in_subtree(
                old(self).pager.disk(),
                old(self).root(),
                old(self).height@,
                old(self)@[key@] as int,
            ) ==> final(self).valid() && (if r is Ok {
                final(self)@ == old(self)@.remove(key@) && !live(
                    final(self).pager,
                    old(self)@[key@] as int,
                )
            } else {
                final(self)@ == old(self)@
            }),
    {
        let ghost start = *self;
        let taken = self.delete(key);
        let ghost before = *self;
        let removed = taken?;
        match removed {
            Some(v) => {
                if v > usize::MAX as u64 {
                    return Err(Error::UnexpectedError("Number too large for this machine".to_owned()));
                }
                let freed = self.pager.free_object(Offset(v as usize));
                proof {
                    if live(start.pager, v as int) && !in_subtree(
                        start.pager.disk(),
                        start.root(),
                        start.height@,
                        v as int,
                    ) {
                        assert(live(before.pager, v as int));
                        assert(self.pager.config.root_page == before.pager.config.root_page);
                        lemma_object_freed(before, *self, v as int);
                        crate::pager::lemma_insert_sorted_contains(
                            before.pager.free_list()->Some_0,
                            v as int,
                            v as int,
                        );
                    }
                }
                freed
            },
            None => Ok(()),
        }
    }
}

/// Giving back a page that is no page of the tree leaves the index holding
/// what it held.
pub proof fn lemma_object_freed(before: BTree, after: BTree, o: int)
    requires
        before.valid(),
        after.height == before.height,
        crate::pager::freed_page(before.pager, after.pager, o),
        is_page(before.pager.disk(), o),
        !before.pager.free_list()->Some_0.contains(o),
    ensures
        !in_subtree(before.pager.disk(), before.root(), before.height@, o) ==> after.valid()
            && after@ == before@,
        after@ == before@ || in_subtree(before.pager.disk(), before.root(), before.height@, o),
{
    let pre = before.pager;
    let post = after.pager;
    let h = before.height@;
    let root = before.root();
    if !in_subtree(pre.disk(), root, h, o) {
        assert forall|p: int| #[trigger] in_subtree(pre.disk(), root, h, p) implies is_page(
            post.disk(),
            p,
        ) && page_at(post.disk(), p) == page_at(pre.disk(), p) by {
            assert(live(pre, p));
        }
        crate::tree::lemma_subtree_frame(pre.disk(), post.disk(), root, h, None, None);
        assert forall|p: int| #[trigger] in_subtree(post.disk(), root, h, p) implies live(
            post,
            p,
        ) by {
            assert(in_subtree(pre.disk(), root, h, p));
            assert(live(pre, p));
            crate::pager::lemma_insert_sorted_contains(pre.free_list()->Some_0, o, p);
        }
        lemma_view_same(before, after);
    }
}

} // verus!
