//! The pager: the pages of the storage, the configuration in page zero,
//! and the free list that runs through the pages that are free.

use crate::bytes::{be_bytes, be_value, read_be_u64};
use crate::error::Error;
use crate::node::{link_word, offset_view, offsets_view, word_at, zeros};
use crate::page::{Page, splice, zero_page};
use crate::page_layout::{PAGE_SIZE, PTR_SIZE};
use vstd::prelude::*;

verus! {

/// Where a page starts: a count of bytes from the start of the storage,
/// always a multiple of the page size.
#[derive(Clone, Copy, Eq, PartialEq, PartialOrd, Ord, Debug, Structural)]
pub struct Offset(pub usize);

/// Where a stored object starts.
#[derive(Clone, Copy, Eq, PartialEq, PartialOrd, Ord, Debug, Structural)]
pub struct ObjectAddress(pub usize);

impl From<usize> for Offset {
    fn from(v: usize) -> (offset: Self) {
        Self(v)
    }
}

impl vstd::std_specs::convert::FromSpecImpl<usize> for Offset {
    open spec fn obeys_from_spec() -> bool {
        true
    }

    open spec fn from_spec(v: usize) -> Self {
        Offset(v)
    }
}

/// Reads the first eight bytes of `input` as one number, most significant
/// byte first, and moves `input` past them.
pub fn read_be_usize(input: &mut &[u8]) -> (v: usize)
    requires
        old(input)@.len() >= PTR_SIZE,
        be_value(old(input)@.subrange(0, PTR_SIZE as int)) <= usize::MAX,
    ensures
        v == be_value(old(input)@.subrange(0, PTR_SIZE as int)),
        final(input)@ == old(input)@.subrange(PTR_SIZE as int, old(input)@.len() as int),
{
    let whole: &[u8] = *input;
    let v = read_be_u64(whole, 0);
    *input = vstd::slice::slice_subrange(whole, PTR_SIZE, whole.len());
    v as usize
}

/// What page zero holds: where the root of the tree is and where the free
/// list begins. Zero stands for none.
pub struct Config {
    pub root_page: Option<Offset>,
    pub first_free_page: Option<Offset>,
}

impl Default for Config {
    fn default() -> (config: Self)
        ensures
            config.root_page is None,
            config.first_free_page is None,
    {
        Self { root_page: None, first_free_page: None }
    }
}

/// The page that stores a configuration: the root, the head of the free
/// list, and zeros.
pub open spec fn config_bytes(root: Option<usize>, first_free: Option<usize>) -> Seq<u8> {
    be_bytes(link_word(root), 8) + be_bytes(link_word(first_free), 8) + zeros(PAGE_SIZE - 16)
}

/// The offset that a stored number stands for: none for zero.
pub open spec fn link_of(word: nat) -> Option<usize> {
    if word == 0 {
        None
    } else {
        Some(word as usize)
    }
}

impl Config {
    /// Reads page zero. Fails with `UnexpectedError` where a number in it
    /// does not fit the machine.
    pub fn try_from(page: Page) -> (r: Result<Config, Error>)
        ensures
            Page::holds_usize(page@, 0) && Page::holds_usize(page@, 8) ==> r is Ok && offset_view(
                r->Ok_0.root_page,
            ) == link_of(word_at(page@, 0)) && offset_view(r->Ok_0.first_free_page) == link_of(
                word_at(page@, 8),
            ),
            !(Page::holds_usize(page@, 0) && Page::holds_usize(page@, 8)) ==> r is Err
                && r->Err_0 is UnexpectedError,
    {
        let root_page = page.get_usize_from_offset(0)?;
        let root_page = if root_page == 0 {
            None
        } else {
            Some(Offset(root_page))
        };
        let first_free_page = page.get_usize_from_offset(PTR_SIZE)?;
        let first_free_page = if first_free_page == 0 {
            None
        } else {
            Some(Offset(first_free_page))
        };
        Ok(Config { root_page, first_free_page })
    }

    /// The page that stores this configuration.
    pub fn to_page(&self) -> (page: Page)
        ensures
            page@ == config_bytes(offset_view(self.root_page), offset_view(self.first_free_page)),
    {
        let mut page = Page::new_empty();
        let root: usize = match self.root_page {
            Some(o) => o.0,
            None => 0,
        };
        let first_free: usize = match self.first_free_page {
            Some(o) => o.0,
            None => 0,
        };
        proof {
            crate::bytes::lemma_be_bytes_len(root as nat, 8);
            crate::bytes::lemma_be_bytes_len(first_free as nat, 8);
        }
        let _ = page.set_u64_at_offset(0, root as u64);
        let _ = page.set_u64_at_offset(PTR_SIZE, first_free as u64);
        assert(page@ =~= config_bytes(
            offset_view(self.root_page),
            offset_view(self.first_free_page),
        ));
        page
    }
}

/// Whether each number of `s` is less than the next.
pub open spec fn ascending(s: Seq<usize>) -> bool {
    forall|i: int, j: int| 0 <= i < j < s.len() ==> s[i] < s[j]
}

/// The offsets of pages to give back when an operation is done: each once,
/// the smallest first.
pub struct FreeQueue {
    q: Vec<Offset>,
}

impl View for FreeQueue {
    type V = Seq<usize>;

    closed spec fn view(&self) -> Seq<usize> {
        offsets_view(self.q@)
    }
}

impl FreeQueue {
    #[verifier::type_invariant]
    spec fn sorted(&self) -> bool {
        ascending(self@)
    }

    /// The queue that holds nothing.
    pub fn new() -> (fq: Self)
        ensures
            fq@ == Seq::<usize>::empty(),
    {
        let fq = Self { q: Vec::new() };
        assert(fq@ =~= Seq::<usize>::empty());
        fq
    }

    /// Adds an offset. One that the queue holds already is not added again,
    /// and the queue stays in ascending order.
    pub fn add(&mut self, offset: Offset)
        ensures
            ascending(final(self)@),
            ascending(old(self)@),
            forall|o: usize|
                final(self)@.contains(o) <==> (old(self)@.contains(o) || o == offset.0),
            old(self)@.contains(offset.0) ==> final(self)@ == old(self)@,
            !old(self)@.contains(offset.0) ==> final(self)@.len() == old(self)@.len() + 1,
    {
        proof {
            use_type_invariant(&*self);
        }
        let ghost before = self@;
        let mut lo: usize = 0;
        let mut hi: usize = self.q.len();
        while lo < hi
            invariant
                lo <= hi <= self.q.len(),
                self@ == before,
                ascending(before),
                forall|i: int| 0 <= i < lo ==> before[i] < offset.0,
                forall|i: int| hi <= i < before.len() ==> before[i] > offset.0,
            decreases hi - lo,
        {
            let mid = lo + (hi - lo) / 2;
            let at = self.q[mid].0;
            assert(at == before[mid as int]);
            if at == offset.0 {
                return ;
            } else if at < offset.0 {
                lo = mid + 1;
            } else {
                hi = mid;
            }
        }
        let mut q: Vec<Offset> = Vec::new();
        assert(offsets_view(q@) =~= Seq::<usize>::empty());
        core::mem::swap(&mut self.q, &mut q);
        q.insert(lo, offset);
        assert(offsets_view(q@) =~= before.insert(lo as int, offset.0));
        core::mem::swap(&mut self.q, &mut q);
        proof {
            let after = self@;
            assert(!before.contains(offset.0));
            assert forall|o: usize| after.contains(o) <==> (before.contains(o) || o == offset.0) by {
                if before.contains(o) {
                    let i = choose|i: int| 0 <= i < before.len() && before[i] == o;
                    if i < lo {
                        assert(after[i] == o);
                    } else {
                        assert(after[i + 1] == o);
                    }
                }
                if o == offset.0 {
                    assert(after[lo as int] == o);
                }
                if after.contains(o) {
                    let i = choose|i: int| 0 <= i < after.len() && after[i] == o;
                    if i < lo {
                        assert(before[i] == o);
                    } else if i > lo {
                        assert(before[i - 1] == o);
                    }
                }
            }
        }
    }

    /// The offsets of the queue, in ascending order.
    pub fn q(self) -> (offsets: Vec<Offset>)
        ensures
            offsets_view(offsets@) == self@,
            ascending(self@),
    {
        proof {
            use_type_invariant(&self);
        }
        self.q
    }
}

/// The storage as mathematics: the bytes of its pages, page zero first.
pub type Disk = Seq<Seq<u8>>;

/// The page of `disk` that starts at the offset `o`.
pub open spec fn page_at(disk: Disk, o: int) -> Seq<u8> {
    disk[o / (PAGE_SIZE as int)]
}

/// Whether `o` is where a page of `disk` starts.
pub open spec fn in_store(disk: Disk, o: int) -> bool {
    o % (PAGE_SIZE as int) == 0 && 0 <= o < disk.len() * PAGE_SIZE && page_at(disk, o).len()
        == PAGE_SIZE
}

/// Whether `o` is where a page of `disk` other than page zero starts.
pub open spec fn is_page(disk: Disk, o: int) -> bool {
    in_store(disk, o) && o != 0
}

/// The free page that the free page at `o` names as the one after it.
pub open spec fn next_free(disk: Disk, o: int) -> int {
    word_at(page_at(disk, o), 0) as int
}

/// The free list that starts at `head`: the offsets met when following, from
/// `head`, the number in the first eight bytes of each page until it is
/// zero. There is none where the walk leaves the storage or meets an offset
/// that does not lie after the one before it.
pub open spec fn free_chain(disk: Disk, head: int) -> Option<Seq<int>>
    decreases disk.len() * PAGE_SIZE - head,
{
    if head == 0 {
        Some(Seq::empty())
    } else if !is_page(disk, head) {
        None
    } else if next_free(disk, head) == 0 {
        Some(seq![head])
    } else if next_free(disk, head) <= head || !is_page(disk, next_free(disk, head)) {
        None
    } else {
        match free_chain(disk, next_free(disk, head)) {
            None => None,
            Some(rest) => Some(seq![head] + rest),
        }
    }
}

/// Whether each number of `s` is less than the next.
pub open spec fn ascending_ints(s: Seq<int>) -> bool {
    forall|i: int, j: int| 0 <= i < j < s.len() ==> s[i] < s[j]
}

/// A free list starts at its head, is in ascending order, and holds pages
/// of the storage only.
pub proof fn lemma_chain_props(disk: Disk, head: int)
    requires
        free_chain(disk, head) is Some,
    ensures
        ascending_ints(free_chain(disk, head)->Some_0),
        forall|i: int|
            0 <= i < free_chain(disk, head)->Some_0.len() ==> is_page(
                disk,
                #[trigger] free_chain(disk, head)->Some_0[i],
            ) && free_chain(disk, head)->Some_0[i] >= head,
        head != 0 ==> free_chain(disk, head)->Some_0.len() > 0 && free_chain(
            disk,
            head,
        )->Some_0[0] == head,
        head == 0 ==> free_chain(disk, head)->Some_0.len() == 0,
    decreases disk.len() * PAGE_SIZE - head,
{
    if head != 0 && next_free(disk, head) != 0 {
        lemma_chain_props(disk, next_free(disk, head));
    }
}

/// A free list is the same in a storage that has, in each page of the
/// list, the same first eight bytes.
pub proof fn lemma_chain_frame(d1: Disk, d2: Disk, head: int)
    requires
        free_chain(d1, head) is Some,
        d2.len() >= d1.len(),
        forall|i: int|
            0 <= i < free_chain(d1, head)->Some_0.len() ==> {
                let o = #[trigger] free_chain(d1, head)->Some_0[i];
                page_at(d2, o).len() == PAGE_SIZE && next_free(d2, o) == next_free(d1, o)
            },
    ensures
        free_chain(d2, head) == free_chain(d1, head),
    decreases d1.len() * PAGE_SIZE - head,
{
    if head != 0 {
        let c = free_chain(d1, head)->Some_0;
        lemma_chain_props(d1, head);
        assert(c[0] == head);
        let next = next_free(d1, head);
        if next != 0 {
            let rest = free_chain(d1, next)->Some_0;
            assert(c == seq![head] + rest);
            assert forall|i: int| 0 <= i < rest.len() implies {
                let o = #[trigger] rest[i];
                page_at(d2, o).len() == PAGE_SIZE && next_free(d2, o) == next_free(d1, o)
            } by {
                assert(c[i + 1] == rest[i]);
            }
            lemma_chain_frame(d1, d2, next);
        }
    }
}

/// The pages of the index and what is known of them between two openings:
/// the configuration and the place where the storage ends.
pub struct Pager {
    pub pages: Vec<Page>,
    pub pages_allocated: usize,
    pub curser: usize,
    pub config: Config,
}

impl Pager {
    /// The storage as mathematics.
    pub open spec fn disk(&self) -> Disk {
        Seq::new(self.pages@.len(), |i: int| self.pages@[i]@)
    }

    /// Where the free list begins; zero where there is none.
    pub open spec fn head(&self) -> int {
        link_word(offset_view(self.config.first_free_page)) as int
    }

    /// The free list: the offsets of the free pages, in ascending order.
    pub open spec fn free_list(&self) -> Option<Seq<int>> {
        free_chain(self.disk(), self.head())
    }

    /// Whether the pager is sound: page zero exists, the storage ends where
    /// the next new page will start, and the free list is in order.
    pub open spec fn wf(&self) -> bool {
        &&& self.pages@.len() >= 1
        &&& self.curser == self.pages@.len() * PAGE_SIZE
        &&& self.free_list() is Some
        &&& self.config.first_free_page != Some(Offset(0))
    }

    /// The number of bytes in the storage. Fails with `UnexpectedError`
    /// where 64 bits cannot hold it.
    pub fn get_file_size(&self) -> (r: Result<u64, Error>)
        ensures
            self.disk().len() * PAGE_SIZE <= u64::MAX ==> r is Ok && r->Ok_0 == self.disk().len()
                * PAGE_SIZE,
            self.disk().len() * PAGE_SIZE > u64::MAX ==> r is Err && r->Err_0 is UnexpectedError,
    {
        let n = self.pages.len() as u64;
        if n > u64::MAX / 8192 {
            return Err(Error::UnexpectedError("Storage too large".to_owned()));
        }
        Ok(n * 8192)
    }

    /// The index of the page that starts at `offset`, if one does.
    fn page_index(&self, offset: usize) -> (r: Option<usize>)
        ensures
            in_store(self.disk(), offset as int) <==> r is Some,
            r is Some ==> r->Some_0 == offset / PAGE_SIZE && r->Some_0 < self.pages@.len(),
    {
        if offset % PAGE_SIZE != 0 {
            return None;
        }
        let idx = offset / PAGE_SIZE;
        if idx >= self.pages.len() {
            return None;
        }
        Some(idx)
    }

    /// The page that starts at `offset`. Fails where no page starts there:
    /// with `UnexpectedError` where the offset is no multiple of the page
    /// size, with `FileSystemError` where it lies past the end.
    pub fn get_page(&self, offset: &Offset) -> (r: Result<Page, Error>)
        ensures
            in_store(self.disk(), offset.0 as int) ==> r is Ok && r->Ok_0@ == page_at(
                self.disk(),
                offset.0 as int,
            ),
            !in_store(self.disk(), offset.0 as int) ==> r is Err && (if offset.0 % PAGE_SIZE != 0 {
                r->Err_0 is UnexpectedError
            } else {
                r->Err_0 is FileSystemError
            }),
    {
        match self.page_index(offset.0) {
            Some(idx) => Ok(self.pages[idx]),
            None => if offset.0 % PAGE_SIZE != 0 {
                Err(Error::UnexpectedError("Offset is not the start of a page".to_owned()))
            } else {
                Err(Error::FileSystemError("failed to fill whole buffer".to_owned()))
            },
        }
    }

    /// The first `len` bytes of the page that starts at `offset`. Fails as
    /// `get_page` does, and with `FileSystemError` where `len` is more than
    /// a page.
    pub fn get_page_partial(&self, offset: &Offset, len: usize) -> (r: Result<Vec<u8>, Error>)
        ensures
            in_store(self.disk(), offset.0 as int) && len <= PAGE_SIZE ==> r is Ok && r->Ok_0@
                == page_at(self.disk(), offset.0 as int).subrange(0, len as int),
            !(in_store(self.disk(), offset.0 as int) && len <= PAGE_SIZE) ==> r is Err && (
            if offset.0 % PAGE_SIZE != 0 {
                r->Err_0 is UnexpectedError
            } else {
                r->Err_0 is FileSystemError
            }),
    {
        let page = self.get_page(offset)?;
        match page.get_slice(0, len) {
            Ok(bytes) => Ok(bytes),
            Err(_) => Err(Error::FileSystemError("failed to fill whole buffer".to_owned())),
        }
    }

    /// Writes `page` at `offset`: over the page that starts there, or as a
    /// new last page where the storage ends there. Fails, and changes
    /// nothing, for any other offset: with `UnexpectedError` where it is no
    /// multiple of the page size, with `FileSystemError` where it lies
    /// past the end.
    pub fn write_page_at_offset(&mut self, offset: &Offset, page: &Page) -> (r: Result<(), Error>)
        ensures
            final(self).pages_allocated == old(self).pages_allocated,
            final(self).curser == old(self).curser,
            final(self).config == old(self).config,
            in_store(old(self).disk(), offset.0 as int) ==> r is Ok && final(self).pages@ == old(self).pages@.update(
                (offset.0 / PAGE_SIZE) as int,
                *page,
            ),
            offset.0 == old(self).pages@.len() * PAGE_SIZE ==> r is Ok && final(self).pages@
                == old(self).pages@.push(*page),
            !in_store(old(self).disk(), offset.0 as int) && offset.0 != old(self).pages@.len()
                * PAGE_SIZE ==> r is Err && final(self).pages@ == old(self).pages@ && (if offset.0
                % PAGE_SIZE != 0 {
                r->Err_0 is UnexpectedError
            } else {
                r->Err_0 is FileSystemError
            }),
    {
        if offset.0 % PAGE_SIZE != 0 {
            return Err(Error::UnexpectedError("Offset is not the start of a page".to_owned()));
        }
        let idx = offset.0 / PAGE_SIZE;
        if idx < self.pages.len() {
            self.pages[idx] = *page;
            Ok(())
        } else if idx == self.pages.len() {
            self.pages.push(*page);
            Ok(())
        } else {
            Err(Error::FileSystemError("Write past the end of the storage".to_owned()))
        }
    }
}

/// What taking a page for `bytes` does to a sound pager: the page at `o`,
/// which was the head of the free list or, with no free page, the end of the
/// storage, now holds `bytes`; the free list has lost it; and no other page
/// and no root has changed.
pub open spec fn took_page(pre: Pager, post: Pager, o: int, bytes: Seq<u8>) -> bool {
    let free = pre.free_list()->Some_0;
    &&& post.config.root_page == pre.config.root_page
    &&& is_page(post.disk(), o)
    &&& if free.len() > 0 {
        &&& o == free[0]
        &&& post.disk() == pre.disk().update(o / (PAGE_SIZE as int), bytes)
        &&& post.free_list() == Some(free.drop_first())
    } else {
        &&& o == pre.disk().len() * PAGE_SIZE
        &&& post.disk() == pre.disk().push(bytes)
        &&& post.free_list() == Some(free)
    }
}

impl Pager {
    /// Takes a page: the head of the free list, which then begins at the
    /// page after it, or, with no free page, the end of the storage, which
    /// then ends a page later. The storage itself is not changed.
    fn alloc_page(&mut self) -> (r: Result<Offset, Error>)
        ensures
            final(self).pages == old(self).pages,
            final(self).pages_allocated == old(self).pages_allocated,
            final(self).config.root_page == old(self).config.root_page,
            old(self).wf() ==> match r {
                Ok(o) => if old(self).free_list()->Some_0.len() > 0 {
                    &&& o.0 == old(self).free_list()->Some_0[0]
                    &&& final(self).curser == old(self).curser
                    &&& final(self).head() == next_free(old(self).disk(), o.0 as int)
                    &&& final(self).config.first_free_page != Some(Offset(0))
                } else {
                    &&& o.0 == old(self).curser
                    &&& final(self).curser == old(self).curser + PAGE_SIZE
                    &&& final(self).config.first_free_page is None
                },
                Err(e) => *final(self) == *old(self) && e is UnexpectedError && old(
                    self,
                ).free_list()->Some_0.len() == 0 && old(self).curser + PAGE_SIZE > usize::MAX,
            },
    {
        proof {
            if self.wf() {
                lemma_chain_props(self.disk(), self.head());
            }
        }
        match self.config.first_free_page {
            Some(first) => {
                let next = self.get_page(&first)?.get_usize_from_offset(0)?;
                self.config.first_free_page = if next == 0 {
                    None
                } else {
                    Some(Offset(next))
                };
                Ok(first)
            },
            None => {
                let taken = self.curser;
                if taken > usize::MAX - PAGE_SIZE {
                    return Err(Error::UnexpectedError("Storage too large".to_owned()));
                }
                self.curser = taken + PAGE_SIZE;
                Ok(Offset(taken))
            },
        }
    }

    /// Writes `page` to a page taken for it and gives its offset. On a sound
    /// pager this fails only where there is no free page and the storage
    /// cannot grow, and then changes nothing.
    pub fn write_page(&mut self, page: &Page) -> (r: Result<Offset, Error>)
        ensures
            old(self).wf() ==> match r {
                Ok(o) => final(self).wf() && took_page(*old(self), *final(self), o.0 as int, page@),
                Err(e) => *final(self) == *old(self) && e is UnexpectedError && old(
                    self,
                ).free_list()->Some_0.len() == 0 && old(self).curser + PAGE_SIZE > usize::MAX,
            },
    {
        let ghost pre = *self;
        proof {
            if self.wf() {
                lemma_chain_props(self.disk(), self.head());
            }
        }
        let offset = self.alloc_page()?;
        let written = self.write_page_at_offset(&offset, page);
        proof {
            if pre.wf() {
                let free = pre.free_list()->Some_0;
                if free.len() > 0 {
                    let o = offset.0 as int;
                    assert(self.disk() =~= pre.disk().update(o / (PAGE_SIZE as int), page@));
                    let next = next_free(pre.disk(), o);
                    if next != 0 {
                        lemma_chain_props(pre.disk(), next);
                        lemma_chain_frame(pre.disk(), self.disk(), next);
                        assert(free.drop_first() =~= free_chain(pre.disk(), next)->Some_0);
                    } else {
                        assert(free.drop_first() =~= Seq::<int>::empty());
                    }
                } else {
                    assert(self.disk() =~= pre.disk().push(page@));
                }
            }
        }
        match written {
            Ok(()) => Ok(offset),
            Err(e) => Err(e),
        }
    }

    /// Writes the configuration to page zero.
    pub fn write_config(&mut self) -> (r: Result<(), Error>)
        ensures
            final(self).pages_allocated == old(self).pages_allocated,
            final(self).curser == old(self).curser,
            final(self).config == old(self).config,
            old(self).pages@.len() >= 1 ==> r is Ok && final(self).disk() == old(self).disk().update(
                0,
                config_bytes(
                    offset_view(old(self).config.root_page),
                    offset_view(old(self).config.first_free_page),
                ),
            ),
            old(self).pages@.len() == 0 ==> r is Ok && final(self).disk() == seq![
                config_bytes(
                    offset_view(old(self).config.root_page),
                    offset_view(old(self).config.first_free_page),
                ),
            ],
    {
        let ghost pre = *self;
        let page = self.config.to_page();
        let r = self.write_page_at_offset(&Offset(0), &page);
        proof {
            if pre.pages@.len() >= 1 {
                assert(self.disk() =~= pre.disk().update(0, page@));
            } else {
                assert(self.disk() =~= seq![page@]);
            }
        }
        r
    }

    /// Makes `root_page` the root of the tree, and writes the configuration
    /// to page zero.
    pub fn set_root_page(&mut self, root_page: Offset) -> (r: Result<(), Error>)
        ensures
            final(self).pages_allocated == old(self).pages_allocated,
            final(self).curser == old(self).curser,
            final(self).config.root_page == Some(root_page),
            final(self).config.first_free_page == old(self).config.first_free_page,
            old(self).pages@.len() >= 1 ==> r is Ok && final(self).disk() == old(self).disk().update(
                0,
                config_bytes(Some(root_page.0), offset_view(old(self).config.first_free_page)),
            ),
            old(self).pages@.len() == 0 ==> r is Ok && final(self).disk() == seq![
                config_bytes(Some(root_page.0), offset_view(old(self).config.first_free_page)),
            ],
    {
        self.config.root_page = Some(root_page);
        self.write_config()
    }
}

/// `c`, which is in ascending order, with `x` put where it keeps that order.
pub open spec fn insert_sorted(c: Seq<int>, x: int) -> Seq<int>
    decreases c.len(),
{
    if c.len() == 0 || x < c[0] {
        seq![x] + c
    } else {
        seq![c[0]] + insert_sorted(c.drop_first(), x)
    }
}

/// `insert_sorted` adds one number: the result holds it and what the list
/// held, and nothing else.
pub proof fn lemma_insert_sorted_contains(c: Seq<int>, x: int, y: int)
    ensures
        insert_sorted(c, x).contains(y) <==> (c.contains(y) || y == x),
        insert_sorted(c, x).len() == c.len() + 1,
    decreases c.len(),
{
    let r = insert_sorted(c, x);
    if c.len() == 0 || x < c[0] {
        assert(r[0] == x);
        if c.contains(y) {
            let i = choose|i: int| 0 <= i < c.len() && c[i] == y;
            assert(r[i + 1] == y);
        }
        if r.contains(y) {
            let i = choose|i: int| 0 <= i < r.len() && r[i] == y;
            if i > 0 {
                assert(c[i - 1] == y);
            }
        }
    } else {
        let rest = c.drop_first();
        let rr = insert_sorted(rest, x);
        lemma_insert_sorted_contains(rest, x, y);
        assert(r[0] == c[0]);
        if rr.contains(y) {
            let i = choose|i: int| 0 <= i < rr.len() && rr[i] == y;
            assert(r[i + 1] == y);
        }
        if c.contains(y) {
            let i = choose|i: int| 0 <= i < c.len() && c[i] == y;
            if i > 0 {
                assert(rest[i - 1] == y);
            }
        }
        if r.contains(y) {
            let i = choose|i: int| 0 <= i < r.len() && r[i] == y;
            if i > 0 {
                assert(rr[i - 1] == y);
            } else {
                assert(c[0] == y);
            }
        }
    }
}

/// In a free list each page names the one after it, and the last names none.
pub proof fn lemma_chain_links(disk: Disk, head: int, k: int)
    requires
        free_chain(disk, head) is Some,
        0 <= k < free_chain(disk, head)->Some_0.len(),
    ensures
        next_free(disk, free_chain(disk, head)->Some_0[k]) == (if k + 1 < free_chain(
            disk,
            head,
        )->Some_0.len() {
            free_chain(disk, head)->Some_0[k + 1]
        } else {
            0
        }),
        free_chain(disk, free_chain(disk, head)->Some_0[k]) == Some(
            free_chain(disk, head)->Some_0.skip(k),
        ),
    decreases k,
{
    let c = free_chain(disk, head)->Some_0;
    lemma_chain_props(disk, head);
    assert(c[0] == head);
    let next = next_free(disk, head);
    if k == 0 {
        assert(c.skip(0) =~= c);
        if next != 0 {
            lemma_chain_props(disk, next);
        }
    } else {
        let rest = free_chain(disk, next)->Some_0;
        assert(c == seq![head] + rest);
        lemma_chain_links(disk, next, k - 1);
        assert(rest[k - 1] == c[k]);
        assert(rest.skip(k - 1) =~= c.skip(k));
        if k < rest.len() {
            assert(rest[k] == c[k + 1]);
        }
    }
}

/// Linking the page `off` into a free list behind the page `cur` of the
/// list, where `off` lies after `cur` and before the page that `cur` named,
/// gives the list with `off` put in order.
pub proof fn lemma_chain_insert(d1: Disk, d2: Disk, head: int, cur: int, off: int)
    requires
        free_chain(d1, head) is Some,
        free_chain(d1, head)->Some_0.contains(cur),
        is_page(d1, off),
        cur < off,
        next_free(d1, cur) == 0 || off < next_free(d1, cur),
        d2.len() == d1.len(),
        forall|o: int|
            is_page(d1, o) && o != cur && o != off ==> #[trigger] page_at(d2, o) == page_at(d1, o),
        page_at(d2, cur).len() == PAGE_SIZE,
        page_at(d2, off).len() == PAGE_SIZE,
        next_free(d2, cur) == off,
        next_free(d2, off) == next_free(d1, cur),
    ensures
        free_chain(d2, head) == Some(insert_sorted(free_chain(d1, head)->Some_0, off)),
    decreases d1.len() * PAGE_SIZE - head,
{
    let c = free_chain(d1, head)->Some_0;
    lemma_chain_props(d1, head);
    assert(head != 0);
    assert(c[0] == head);
    let i = choose|i: int| 0 <= i < c.len() && c[i] == cur;
    assert(c[i] >= head);
    let next = next_free(d1, head);
    if head == cur {
        if next != 0 {
            let rest = free_chain(d1, next)->Some_0;
            lemma_chain_props(d1, next);
            assert forall|j: int| 0 <= j < rest.len() implies {
                let o = #[trigger] rest[j];
                page_at(d2, o).len() == PAGE_SIZE && next_free(d2, o) == next_free(d1, o)
            } by {
                assert(is_page(d1, rest[j]) && rest[j] >= next);
                assert(page_at(d2, rest[j]) == page_at(d1, rest[j]));
            }
            lemma_chain_frame(d1, d2, next);
            assert(c.drop_first() =~= rest);
            assert(insert_sorted(rest, off) =~= seq![off] + rest);
            assert(free_chain(d2, off) == Some(seq![off] + rest));
        } else {
            assert(c.drop_first() =~= Seq::<int>::empty());
            assert(insert_sorted(c.drop_first(), off) =~= seq![off]);
            assert(free_chain(d2, off) == Some(seq![off]));
        }
    } else {
        assert(i > 0);
        assert(head < cur);
        let rest = free_chain(d1, next)->Some_0;
        assert(c == seq![head] + rest);
        assert(rest[i - 1] == cur);
        assert(page_at(d2, head) == page_at(d1, head));
        lemma_chain_insert(d1, d2, next, cur, off);
        assert(c.drop_first() =~= rest);
        lemma_insert_sorted_contains(rest, off, off);
    }
}

impl Pager {
    /// Writes `bytes` over the first bytes of the page that starts at
    /// `offset`. Fails, and changes nothing, where no page starts there.
    fn write_page_at_offset_partial(&mut self, offset: usize, bytes: &[u8]) -> (r: Result<
        (),
        Error,
    >)
        requires
            bytes@.len() < PAGE_SIZE,
        ensures
            final(self).pages_allocated == old(self).pages_allocated,
            final(self).curser == old(self).curser,
            final(self).config == old(self).config,
            in_store(old(self).disk(), offset as int) ==> r is Ok && final(self).disk() == old(
                self,
            ).disk().update(
                offset as int / (PAGE_SIZE as int),
                splice(page_at(old(self).disk(), offset as int), 0, bytes@),
            ),
            !in_store(old(self).disk(), offset as int) ==> r is Err && *final(self) == *old(self),
    {
        let ghost pre = *self;
        let mut page = self.get_page(&Offset(offset))?;
        let _ = page.set_slice(0, bytes);
        let r = self.write_page_at_offset(&Offset(offset), &page);
        assert(self.disk() =~= pre.disk().update(
            offset as int / (PAGE_SIZE as int),
            splice(page_at(pre.disk(), offset as int), 0, bytes@),
        ));
        r
    }

    /// The free page that the free page at `offset` names as the one after
    /// it.
    fn next_of(&self, offset: usize) -> (r: Result<usize, Error>)
        ensures
            in_store(self.disk(), offset as int) && next_free(self.disk(), offset as int)
                <= usize::MAX ==> r is Ok && r->Ok_0 == next_free(self.disk(), offset as int),
            !(in_store(self.disk(), offset as int) && next_free(self.disk(), offset as int)
                <= usize::MAX) ==> r is Err,
    {
        let bytes = self.get_page_partial(&Offset(offset), PTR_SIZE)?;
        let word = read_be_u64(bytes.as_slice(), 0);
        assert(bytes@.subrange(0, 8) =~= page_at(self.disk(), offset as int).subrange(0, 8));
        if word > usize::MAX as u64 {
            return Err(Error::UnexpectedError("Number too large for this machine".to_owned()));
        }
        Ok(word as usize)
    }
}

/// Two pages that start at different offsets are different pages.
pub proof fn lemma_page_index_distinct(a: int, b: int)
    requires
        a % (PAGE_SIZE as int) == 0,
        b % (PAGE_SIZE as int) == 0,
        a != b,
    ensures
        a / (PAGE_SIZE as int) != b / (PAGE_SIZE as int),
{
}

/// Eight zeros spell zero.
pub proof fn lemma_zero_word()
    ensures
        be_value(zeros(8)) == 0,
{
    reveal_with_fuel(be_value, 9);
    let z = zeros(8);
    assert(z.drop_last() =~= zeros(7));
    assert(zeros(7).drop_last() =~= zeros(6));
    assert(zeros(6).drop_last() =~= zeros(5));
    assert(zeros(5).drop_last() =~= zeros(4));
    assert(zeros(4).drop_last() =~= zeros(3));
    assert(zeros(3).drop_last() =~= zeros(2));
    assert(zeros(2).drop_last() =~= zeros(1));
    assert(zeros(1).drop_last() =~= zeros(0));
}

/// What freeing the page at `o` does to a sound pager: the free list gains
/// `o` in its place, the root stays, and every page but `o` and the pages
/// that were free already holds what it held. Page zero is written anew
/// where there was no free page, and then names `o` as the first; else it
/// stays as it was.
pub open spec fn freed_page(pre: Pager, post: Pager, o: int) -> bool {
    &&& post.wf()
    &&& post.free_list() == Some(insert_sorted(pre.free_list()->Some_0, o))
    &&& post.config.root_page == pre.config.root_page
    &&& post.disk().len() == pre.disk().len()
    &&& post.disk()[0] == if pre.free_list()->Some_0.len() == 0 {
        config_bytes(offset_view(pre.config.root_page), Some(o as usize))
    } else {
        pre.disk()[0]
    }
    &&& forall|p: int|
        is_page(pre.disk(), p) && p != o && !pre.free_list()->Some_0.contains(p)
            ==> #[trigger] page_at(post.disk(), p) == page_at(pre.disk(), p)
}

impl Pager {
    /// Makes the page at `at` name `link` as the free page after it, in its
    /// first eight bytes; with `wide`, the eight bytes after those are set
    /// to zero. Fails, and changes nothing, where no page starts at `at`.
    fn write_link(&mut self, at: usize, link: usize, wide: bool) -> (r: Result<(), Error>)
        ensures
            final(self).pages_allocated == old(self).pages_allocated,
            final(self).curser == old(self).curser,
            final(self).config == old(self).config,
            in_store(old(self).disk(), at as int) ==> {
                &&& r is Ok
                &&& final(self).disk().len() == old(self).disk().len()
                &&& forall|i: int|
                    0 <= i < old(self).disk().len() && i != at as int / (PAGE_SIZE as int)
                        ==> final(self).disk()[i] == old(self).disk()[i]
                &&& page_at(final(self).disk(), at as int).len() == PAGE_SIZE
                &&& next_free(final(self).disk(), at as int) == link
            },
            !in_store(old(self).disk(), at as int) ==> r is Err && *final(self) == *old(self),
    {
        let mut link_bytes: [u8; 8192] = [0;8192];
        crate::bytes::write_be_u64(&mut link_bytes, 0, link as u64);
        let len: usize = if wide {
            16
        } else {
            8
        };
        let part = vstd::slice::slice_subrange(link_bytes.as_slice(), 0, len);
        let r = self.write_page_at_offset_partial(at, part);
        proof {
            if r is Ok {
                crate::bytes::lemma_be_bytes_len(link as nat, 8);
                crate::bytes::lemma_pow256_8();
                crate::bytes::lemma_be_value_of_bytes(link as nat, 8);
                assert(page_at(self.disk(), at as int).subrange(0, 8) =~= be_bytes(link as nat, 8));
            }
        }
        r
    }

    /// Gives the page at `offset` back: links it into the free list where it
    /// keeps the list in ascending order. On a sound pager this fails with
    /// `UnexpectedError`, and changes nothing, where `offset` is page zero,
    /// is not where a page starts, or is free already; for every other
    /// offset it succeeds.
    pub fn free_page(&mut self, offset: &Offset) -> (r: Result<(), Error>)
        ensures
            old(self).wf() ==> if is_page(old(self).disk(), offset.0 as int) && !old(
                self,
            ).free_list()->Some_0.contains(offset.0 as int) {
                r is Ok && freed_page(*old(self), *final(self), offset.0 as int)
            } else {
                r is Err && r->Err_0 is UnexpectedError && *final(self) == *old(self)
            },
    {
        let ghost pre = *self;
        let ghost off = offset.0 as int;
        let ghost free = pre.free_list()->Some_0;
        proof {
            if pre.wf() {
                lemma_chain_props(pre.disk(), pre.head());
            }
        }
        if offset.0 == 0 || self.page_index(offset.0).is_none() {
            return Err(Error::UnexpectedError("Freeing what is not a page".to_owned()));
        }
        match self.config.first_free_page {
            None => {
                let _ = self.write_page_at_offset(offset, &Page::new_empty());
                self.config.first_free_page = Some(*offset);
                let ghost mid = *self;
                let _ = self.write_config();
                proof {
                    if pre.wf() {
                        lemma_page_index_distinct(off, 0);
                        assert(mid.disk() =~= pre.disk().update(
                            off / (PAGE_SIZE as int),
                            zero_page(),
                        ));
                        assert(page_at(self.disk(), off) == zero_page());
                        assert(zero_page().subrange(0, 8) =~= zeros(8));
                        lemma_zero_word();
                        assert(insert_sorted(free, off) =~= seq![off]);
                        assert forall|p: int|
                            is_page(pre.disk(), p) && p != off && !free.contains(
                                p,
                            ) implies #[trigger] page_at(self.disk(), p) == page_at(
                            pre.disk(),
                            p,
                        ) by {
                            lemma_page_index_distinct(p, off);
                            lemma_page_index_distinct(p, 0);
                        }
                    }
                }
                Ok(())
            },
            Some(first) => {
                if first.0 == offset.0 {
                    proof {
                        if pre.wf() {
                            assert(free[0] == off);
                        }
                    }
                    return Err(Error::UnexpectedError("Freeing a free page".to_owned()));
                }
                if first.0 > offset.0 {
                    let _ = self.write_link(offset.0, first.0, true);
                    self.config.first_free_page = Some(*offset);
                    proof {
                        if pre.wf() {
                            assert(!free.contains(off)) by {
                                if free.contains(off) {
                                    let j = choose|j: int| 0 <= j < free.len() && free[j] == off;
                                    assert(free[j] >= first.0);
                                }
                            }
                            assert forall|j: int| 0 <= j < free.len() implies {
                                let o = #[trigger] free[j];
                                page_at(self.disk(), o).len() == PAGE_SIZE && next_free(
                                    self.disk(),
                                    o,
                                ) == next_free(pre.disk(), o)
                            } by {
                                assert(is_page(pre.disk(), free[j]) && free[j] >= first.0);
                                lemma_page_index_distinct(free[j], off);
                            }
                            lemma_chain_frame(pre.disk(), self.disk(), first.0 as int);
                            assert(insert_sorted(free, off) =~= seq![off] + free);
                            assert forall|p: int|
                                is_page(pre.disk(), p) && p != off && !free.contains(
                                    p,
                                ) implies #[trigger] page_at(self.disk(), p) == page_at(
                                pre.disk(),
                                p,
                            ) by {
                                lemma_page_index_distinct(p, off);
                            }
                        }
                    }
                    return Ok(());
                }
                let walked = self.next_of(first.0);
                proof {
                    if pre.wf() {
                        lemma_chain_links(pre.disk(), pre.head(), 0);
                        if free.len() > 1 {
                            assert(is_page(pre.disk(), free[1]));
                        }
                    }
                }
                let mut next: usize = match walked {
                    Ok(n) => n,
                    Err(e) => {
                        return Err(Error::UnexpectedError("Free list is broken".to_owned()));
                    },
                };
                let mut current: usize = first.0;
                let ghost mut k: int = 0;
                loop
                    invariant
                        *self == pre,
                        pre == *old(self),
                        off == offset.0,
                        current < offset.0,
                        free == pre.free_list()->Some_0,
                        pre.wf() ==> {
                            &&& is_page(pre.disk(), off)
                            &&& ascending_ints(free)
                            &&& 0 <= k < free.len()
                            &&& free[k] == current
                            &&& next == next_free(pre.disk(), current as int)
                            &&& next == (if k + 1 < free.len() {
                                free[k + 1]
                            } else {
                                0
                            })
                        },
                    ensures
                        next > offset.0,
                    decreases offset.0 - current,
                {
                    proof {
                        if pre.wf() {
                            lemma_chain_props(pre.disk(), pre.head());
                            assert(is_page(pre.disk(), free[k]));
                            if k + 1 < free.len() {
                                assert(free[k] < free[k + 1]);
                                assert(is_page(pre.disk(), free[k + 1]));
                                lemma_chain_links(pre.disk(), pre.head(), k + 1);
                                if k + 2 < free.len() {
                                    assert(is_page(pre.disk(), free[k + 2]));
                                }
                            }
                            if next == 0 || next > offset.0 {
                                assert(!free.contains(off)) by {
                                    if free.contains(off) {
                                        let j = choose|j: int| 0 <= j < free.len() && free[j] == off;
                                        if j < k {
                                            assert(free[j] < free[k]);
                                        } else if j > k + 1 {
                                            assert(free[k + 1] < free[j]);
                                        }
                                    }
                                }
                            }
                            assert(free.contains(current as int));
                        }
                    }
                    if next == 0 {
                        let linked = self.write_link(current, offset.0, false);
                        let ghost mid = *self;
                        let _ = self.write_page_at_offset(offset, &Page::new_empty());
                        proof {
                            if pre.wf() {
                                lemma_page_index_distinct(off, current as int);
                                assert(self.disk() =~= mid.disk().update(
                                    off / (PAGE_SIZE as int),
                                    zero_page(),
                                ));
                                assert(page_at(self.disk(), off) == zero_page());
                                assert(zero_page().subrange(0, 8) =~= zeros(8));
                                lemma_zero_word();
                                assert forall|o: int|
                                    is_page(pre.disk(), o) && o != current as int && o
                                        != off implies #[trigger] page_at(self.disk(), o)
                                    == page_at(pre.disk(), o) by {
                                    lemma_page_index_distinct(o, off);
                                    lemma_page_index_distinct(o, current as int);
                                }
                                lemma_chain_insert(
                                    pre.disk(),
                                    self.disk(),
                                    pre.head(),
                                    current as int,
                                    off,
                                );
                            }
                        }
                        return match linked {
                            Ok(()) => Ok(()),
                            Err(e) => Err(Error::UnexpectedError("Free list is broken".to_owned())),
                        };
                    }
                    if next == offset.0 {
                        proof {
                            if pre.wf() {
                                assert(free[k + 1] == off);
                            }
                        }
                        return Err(Error::UnexpectedError("Freeing a free page".to_owned()));
                    }
                    if next > offset.0 {
                        break ;
                    }
                    if next <= current {
                        return Err(Error::UnexpectedError("Free list is broken".to_owned()));
                    }
                    let walked = self.next_of(next);
                    proof {
                        if pre.wf() {
                            k = k + 1;
                        }
                    }
                    current = next;
                    next =
                    match walked {
                        Ok(n) => n,
                        Err(e) => {
                            return Err(Error::UnexpectedError("Free list is broken".to_owned()));
                        },
                    };
                }
                proof {
                    if pre.wf() {
                        lemma_chain_props(pre.disk(), pre.head());
                        assert(is_page(pre.disk(), free[k]));
                        assert(!free.contains(off)) by {
                            if free.contains(off) {
                                let j = choose|j: int| 0 <= j < free.len() && free[j] == off;
                                if j < k {
                                    assert(free[j] < free[k]);
                                } else if j > k + 1 {
                                    assert(free[k + 1] < free[j]);
                                }
                            }
                        }
                        assert(free.contains(current as int));
                    }
                }
                let _ = self.write_link(offset.0, next, false);
                let ghost mid = *self;
                let linked = self.write_link(current, offset.0, false);
                proof {
                    if pre.wf() {
                        lemma_page_index_distinct(off, current as int);
                        assert forall|o: int|
                            is_page(pre.disk(), o) && o != current as int && o
                                != off implies #[trigger] page_at(self.disk(), o) == page_at(
                            pre.disk(),
                            o,
                        ) by {
                            lemma_page_index_distinct(o, off);
                            lemma_page_index_distinct(o, current as int);
                        }
                        lemma_chain_insert(
                            pre.disk(),
                            self.disk(),
                            pre.head(),
                            current as int,
                            off,
                        );
                    }
                }
                match linked {
                    Ok(()) => Ok(()),
                    Err(e) => Err(Error::UnexpectedError("Free list is broken".to_owned())),
                }
            },
        }
    }
}

/// `c` with each number of `offsets` put in order, the first of them first.
pub open spec fn insert_all(c: Seq<int>, offsets: Seq<usize>) -> Seq<int>
    decreases offsets.len(),
{
    if offsets.len() == 0 {
        c
    } else {
        insert_sorted(insert_all(c, offsets.drop_last()), offsets.last() as int)
    }
}

/// `insert_all` adds the numbers of `offsets`: the result holds them and
/// what the list held, and nothing else.
pub proof fn lemma_insert_all_contains(c: Seq<int>, offsets: Seq<usize>, y: int)
    ensures
        insert_all(c, offsets).contains(y) <==> (c.contains(y) || exists|i: int|
            0 <= i < offsets.len() && offsets[i] == y),
    decreases offsets.len(),
{
    if offsets.len() > 0 {
        let front = offsets.drop_last();
        lemma_insert_all_contains(c, front, y);
        lemma_insert_sorted_contains(insert_all(c, front), offsets.last() as int, y);
        if exists|i: int| 0 <= i < front.len() && front[i] == y {
            let i = choose|i: int| 0 <= i < front.len() && front[i] == y;
            assert(offsets[i] == y);
        }
        if exists|i: int| 0 <= i < offsets.len() && offsets[i] == y {
            let i = choose|i: int| 0 <= i < offsets.len() && offsets[i] == y;
            if i < front.len() {
                assert(front[i] == y);
            }
        }
    }
}

/// What freeing the pages at `offsets` does to a sound pager: the free list
/// gains them, each in its place, the root stays, and every page but them
/// and the pages that were free already holds what it held. Page zero is
/// written anew where there was no free page and one is freed, and then names
/// the first of `offsets` as the first free page; else it stays as it was.
pub open spec fn freed_pages(pre: Pager, post: Pager, offsets: Seq<usize>) -> bool {
    &&& post.wf()
    &&& post.free_list() == Some(insert_all(pre.free_list()->Some_0, offsets))
    &&& post.config.root_page == pre.config.root_page
    &&& post.disk().len() == pre.disk().len()
    &&& post.disk()[0] == if pre.free_list()->Some_0.len() == 0 && offsets.len() > 0 {
        config_bytes(offset_view(pre.config.root_page), Some(offsets[0]))
    } else {
        pre.disk()[0]
    }
    &&& forall|p: int|
        is_page(pre.disk(), p) && !pre.free_list()->Some_0.contains(p) && !(exists|i: int|
            0 <= i < offsets.len() && offsets[i] == p) ==> #[trigger] page_at(post.disk(), p)
            == page_at(pre.disk(), p)
    &&& forall|p: int| is_page(pre.disk(), p) <==> is_page(post.disk(), p)
}

/// Whether each of `offsets` can be freed: it is a page, and not free
/// already.
pub open spec fn can_free(pre: Pager, offsets: Seq<usize>) -> bool {
    forall|i: int|
        0 <= i < offsets.len() ==> is_page(pre.disk(), #[trigger] offsets[i] as int)
            && !pre.free_list()->Some_0.contains(offsets[i] as int)
}

/// The pages that a storage of `image.len()` bytes holds, where that is a
/// whole number of pages.
pub open spec fn pages_of(image: Seq<u8>) -> Disk {
    Seq::new(
        image.len() / (PAGE_SIZE as nat),
        |i: int| image.subrange(i * PAGE_SIZE, (i + 1) * PAGE_SIZE),
    )
}

/// The page that stores an object: its length in eight bytes, the object,
/// and zeros.
pub open spec fn object_bytes(object: Seq<u8>) -> Seq<u8> {
    be_bytes(object.len(), 8) + object + zeros(PAGE_SIZE - 8 - object.len())
}

/// The page of an object gives its length and the object back.
pub proof fn lemma_object_bytes(object: Seq<u8>)
    requires
        object.len() <= PAGE_SIZE - PTR_SIZE,
    ensures
        object_bytes(object).len() == PAGE_SIZE,
        word_at(object_bytes(object), 0) == object.len(),
        object_bytes(object).subrange(8, 8 + object.len() as int) == object,
{
    crate::bytes::lemma_be_bytes_len(object.len(), 8);
    crate::bytes::lemma_pow256_8();
    crate::bytes::lemma_be_value_of_bytes(object.len(), 8);
    assert(object_bytes(object).subrange(0, 8) =~= be_bytes(object.len(), 8));
    assert(object_bytes(object).subrange(8, 8 + object.len() as int) =~= object);
}

impl Pager {
    /// Opens the storage whose bytes are `image`. An empty storage gets a
    /// page zero that names no root and no free page. Fails with
    /// `UnexpectedError` where the storage is not a whole number of pages,
    /// or page zero holds a number that does not fit the machine.
    pub fn open(image: &[u8]) -> (r: Result<Pager, Error>)
        ensures
            image@.len() % (PAGE_SIZE as nat) != 0 ==> r is Err && r->Err_0 is UnexpectedError,
            image@.len() == 0 ==> {
                &&& r is Ok
                &&& r->Ok_0.disk() == seq![config_bytes(None, None)]
                &&& r->Ok_0.config.root_page is None
                &&& r->Ok_0.config.first_free_page is None
                &&& r->Ok_0.curser == PAGE_SIZE
                &&& r->Ok_0.pages_allocated == 0
            },
            image@.len() > 0 && image@.len() % (PAGE_SIZE as nat) == 0 ==> if Page::holds_usize(
                pages_of(image@)[0],
                0,
            ) && Page::holds_usize(pages_of(image@)[0], 8) {
                &&& r is Ok
                &&& r->Ok_0.disk() == pages_of(image@)
                &&& offset_view(r->Ok_0.config.root_page) == link_of(
                    word_at(pages_of(image@)[0], 0),
                )
                &&& offset_view(r->Ok_0.config.first_free_page) == link_of(
                    word_at(pages_of(image@)[0], 8),
                )
                &&& r->Ok_0.curser == image@.len()
                &&& r->Ok_0.pages_allocated == image@.len() / (PAGE_SIZE as nat)
            } else {
                r is Err && r->Err_0 is UnexpectedError
            },
    {
        let len = image.len();
        if len % PAGE_SIZE != 0 {
            return Err(Error::UnexpectedError("Storage is not a whole number of pages".to_owned()));
        }
        let count = len / PAGE_SIZE;
        let mut pages: Vec<Page> = Vec::new();
        let mut i: usize = 0;
        while i < count
            invariant
                i <= count,
                count == len / PAGE_SIZE,
                len == image@.len(),
                len % PAGE_SIZE == 0,
                pages@.len() == i,
                forall|j: int| 0 <= j < i ==> (#[trigger] pages@[j])@ == pages_of(image@)[j],
            decreases count - i,
        {
            let mut page = Page::new_empty();
            let part = vstd::slice::slice_subrange(image, i * PAGE_SIZE, (i + 1) * PAGE_SIZE);
            let _ = page.set_slice(0, part);
            assert(page@ =~= pages_of(image@)[i as int]);
            pages.push(page);
            i = i + 1;
        }
        let mut pager = Pager {
            pages,
            pages_allocated: count,
            curser: 0,
            config: Config::default(),
        };
        if count != 0 {
            pager.config = Config::try_from(pager.pages[0])?;
        } else {
            let _ = pager.write_config();
        }
        pager.curser = if count != 0 {
            len
        } else {
            PAGE_SIZE
        };
        assert(count != 0 ==> pager.disk() =~= pages_of(image@));
        Ok(pager)
    }

    /// The bytes of the storage.
    pub fn image(&self) -> (image: Vec<u8>)
        ensures
            image@.len() == self.disk().len() * PAGE_SIZE,
            pages_of(image@) == self.disk(),
    {
        let mut image: Vec<u8> = Vec::new();
        let mut i: usize = 0;
        while i < self.pages.len()
            invariant
                i <= self.pages.len(),
                image@.len() == i * PAGE_SIZE,
                forall|j: int|
                    0 <= j < i ==> image@.subrange(j * PAGE_SIZE, (j + 1) * PAGE_SIZE)
                        == #[trigger] self.disk()[j],
            decreases self.pages.len() - i,
        {
            let ghost before = image@;
            image.extend_from_slice(self.pages[i].data.as_slice());
            assert forall|j: int| 0 <= j < i + 1 implies image@.subrange(
                j * PAGE_SIZE,
                (j + 1) * PAGE_SIZE,
            ) == #[trigger] self.disk()[j] by {
                if j < i {
                    assert(image@.subrange(j * PAGE_SIZE, (j + 1) * PAGE_SIZE) =~= before.subrange(
                        j * PAGE_SIZE,
                        (j + 1) * PAGE_SIZE,
                    ));
                } else {
                    assert(image@.subrange(j * PAGE_SIZE, (j + 1) * PAGE_SIZE) =~= self.pages@[j]@);
                }
            }
            i = i + 1;
        }
        assert(pages_of(image@) =~= self.disk());
        image
    }

    /// Gives back every page of `free_queue`, the smallest offset first. On
    /// a sound pager this succeeds where each of them can be freed; where
    /// one cannot, it fails with `UnexpectedError` and the pages before that
    /// one have been freed.
    pub fn free_pages(&mut self, free_queue: FreeQueue) -> (r: Result<(), Error>)
        ensures
            old(self).wf() && can_free(*old(self), free_queue@) ==> r is Ok && freed_pages(
                *old(self),
                *final(self),
                free_queue@,
            ),
            old(self).wf() && !can_free(*old(self), free_queue@) ==> r is Err && r->Err_0 is UnexpectedError
                && exists|n: int|
                0 <= n < free_queue@.len() && freed_pages(
                    *old(self),
                    *final(self),
                    #[trigger] free_queue@.take(n),
                ),
    {
        let ghost pre = *self;
        let ghost all = free_queue@;
        let offsets = free_queue.q();
        let mut i: usize = 0;
        assert(all.take(0) =~= Seq::<usize>::empty());
        while i < offsets.len()
            invariant
                i <= offsets.len(),
                pre == *old(self),
                all == free_queue@,
                all == offsets_view(offsets@),
                ascending(all),
                pre.wf() ==> freed_pages(pre, *self, all.take(i as int)),
                pre.wf() ==> forall|j: int|
                    0 <= j < i ==> is_page(pre.disk(), #[trigger] all[j] as int)
                        && !pre.free_list()->Some_0.contains(all[j] as int),
            decreases offsets.len() - i,
        {
            let ghost mid = *self;
            let o = offsets[i];
            proof {
                if pre.wf() {
                    let done = all.take(i as int);
                    lemma_insert_all_contains(pre.free_list()->Some_0, done, o.0 as int);
                    if exists|j: int| 0 <= j < done.len() && done[j] == o.0 as int {
                        let j = choose|j: int| 0 <= j < done.len() && done[j] == o.0 as int;
                        assert(all[j] < all[i as int]);
                    }
                    assert(all[i as int] == o.0);
                }
            }
            let freed = self.free_page(&o);
            proof {
                if pre.wf() {
                    let done = all.take(i as int);
                    let more = all.take(i + 1);
                    assert(more.drop_last() =~= done);
                    assert(more.last() == o.0);
                    if freed is Ok {
                        assert forall|p: int|
                            is_page(pre.disk(), p) && !pre.free_list()->Some_0.contains(p) && !(
                            exists|j: int| 0 <= j < more.len() && more[j] == p) implies #[trigger] page_at(
                            self.disk(),
                            p,
                        ) == page_at(pre.disk(), p) by {
                            lemma_insert_all_contains(pre.free_list()->Some_0, done, p);
                            assert(more[i as int] == o.0);
                            if exists|j: int| 0 <= j < done.len() && done[j] == p {
                                let j = choose|j: int| 0 <= j < done.len() && done[j] == p;
                                assert(more[j] == p);
                            }
                            assert(page_at(self.disk(), p) == page_at(mid.disk(), p));
                        }
                        assert forall|p: int| is_page(pre.disk(), p) <==> is_page(
                            self.disk(),
                            p,
                        ) by {
                            assert(is_page(pre.disk(), p) <==> is_page(mid.disk(), p));
                        }
                        assert(freed_pages(pre, *self, more));
                    } else {
                        assert(*self == mid);
                        assert(freed_pages(pre, *self, all.take(i as int)));
                        assert(!can_free(pre, all)) by {
                            if can_free(pre, all) {
                                assert(is_page(pre.disk(), all[i as int] as int));
                                assert(is_page(mid.disk(), o.0 as int));
                                assert(!pre.free_list()->Some_0.contains(o.0 as int));
                            }
                        }
                    }
                }
            }
            match freed {
                Ok(()) => {},
                Err(e) => {
                    return Err(Error::UnexpectedError("Freeing what cannot be freed".to_owned()));
                },
            }
            i = i + 1;
        }
        assert(all.take(offsets.len() as int) =~= all);
        Ok(())
    }

    /// Writes an object to a page taken for it and gives the offset of the
    /// page. Fails with `UnexpectedError`, and changes nothing, for an
    /// object that one page cannot hold.
    pub fn write_object(&mut self, object: &Vec<u8>) -> (r: Result<Offset, Error>)
        ensures
            object@.len() > PAGE_SIZE - PTR_SIZE ==> r is Err && r->Err_0 is UnexpectedError
                && *final(self) == *old(self),
            old(self).wf() && object@.len() <= PAGE_SIZE - PTR_SIZE ==> match r {
                Ok(o) => final(self).wf() && took_page(
                    *old(self),
                    *final(self),
                    o.0 as int,
                    object_bytes(object@),
                ),
                Err(e) => *final(self) == *old(self) && e is UnexpectedError && old(
                    self,
                ).free_list()->Some_0.len() == 0 && old(self).curser + PAGE_SIZE > usize::MAX,
            },
    {
        if object.len() > PAGE_SIZE - PTR_SIZE {
            return Err(Error::UnexpectedError("Object does not fit in a page".to_owned()));
        }
        let mut page = Page::new_empty();
        proof {
            crate::bytes::lemma_be_bytes_len(object@.len(), 8);
        }
        let _ = page.set_u64_at_offset(0, object.len() as u64);
        let _ = page.set_slice(PTR_SIZE, object.as_slice());
        assert(page@ =~= object_bytes(object@));
        self.write_page(&page)
    }

    /// Gives the page of an object back, as `free_page` does.
    pub fn free_object(&mut self, offset: Offset) -> (r: Result<(), Error>)
        ensures
            old(self).wf() ==> if is_page(old(self).disk(), offset.0 as int) && !old(
                self,
            ).free_list()->Some_0.contains(offset.0 as int) {
                r is Ok && freed_page(*old(self), *final(self), offset.0 as int)
            } else {
                r is Err && r->Err_0 is UnexpectedError && *final(self) == *old(self)
            },
    {
        self.free_page(&offset)
    }

    /// The object stored in the page at `offset`: as many of the bytes that
    /// follow the first eight as these spell. Fails where no page starts
    /// there, or the length is more than a page holds.
    pub fn get_object(&self, offset: &Offset) -> (r: Result<Vec<u8>, Error>)
        ensures
            in_store(self.disk(), offset.0 as int) && word_at(
                page_at(self.disk(), offset.0 as int),
                0,
            ) <= PAGE_SIZE - PTR_SIZE ==> r is Ok && r->Ok_0@ == page_at(
                self.disk(),
                offset.0 as int,
            ).subrange(8, 8 + word_at(page_at(self.disk(), offset.0 as int), 0) as int),
            !(in_store(self.disk(), offset.0 as int) && word_at(
                page_at(self.disk(), offset.0 as int),
                0,
            ) <= PAGE_SIZE - PTR_SIZE) ==> r is Err,
    {
        let page = self.get_page(offset)?;
        let len = page.get_u64_from_offset(0)?;
        if len > (PAGE_SIZE - PTR_SIZE) as u64 {
            return Err(Error::UnexpectedError("Object does not fit in a page".to_owned()));
        }
        page.get_slice(PTR_SIZE, len as usize)
    }
}

} // verus!
