//! The page: a buffer of bytes of a fixed size.

use crate::bytes::{be_bytes, be_value, read_be_u64, write_be_u64};
use crate::error::Error;
use crate::page_layout::{PAGE_SIZE, PTR_SIZE};
use vstd::prelude::*;

verus! {

/// A buffer of exactly `PAGE_SIZE` bytes: the unit of storage. A page gives
/// its bytes no meaning; every number in it is stored most significant byte
/// first.
#[derive(Clone, Copy, Debug)]
pub struct Page {
    pub data: [u8; PAGE_SIZE],
}

impl View for Page {
    type V = Seq<u8>;

    open spec fn view(&self) -> Seq<u8> {
        self.data@
    }
}

/// `base` with the bytes from `at` on replaced by `bytes`.
pub open spec fn splice(base: Seq<u8>, at: int, bytes: Seq<u8>) -> Seq<u8> {
    base.subrange(0, at) + bytes + base.subrange(at + bytes.len(), base.len() as int)
}

/// The bytes of a page that holds nothing.
pub open spec fn zero_page() -> Seq<u8> {
    Seq::new(PAGE_SIZE as nat, |i: int| 0u8)
}

impl Page {
    /// The page that holds `data`.
    pub fn new(data: [u8; PAGE_SIZE]) -> (page: Self)
        ensures
            page.data == data,
            page@ == data@,
    {
        Self { data }
    }

    /// The page of zeros.
    pub fn new_empty() -> (page: Self)
        ensures
            page@ == zero_page(),
    {
        let page = Self::new([0;PAGE_SIZE]);
        assert(page@ =~= zero_page());
        page
    }

    /// The bytes of the page.
    pub fn get_data(&self) -> (data: [u8; PAGE_SIZE])
        ensures
            data@ == self@,
    {
        self.data
    }

    /// Reads the eight bytes at `offset` as one number. Fails with
    /// `UnexpectedError` where they do not lie within the page.
    pub fn get_u64_from_offset(&self, offset: usize) -> (r: Result<u64, Error>)
        ensures
            offset + PTR_SIZE <= PAGE_SIZE ==> r is Ok && r->Ok_0 == be_value(
                self@.subrange(offset as int, offset + PTR_SIZE),
            ),
            offset + PTR_SIZE > PAGE_SIZE ==> r is Err && r->Err_0 is UnexpectedError,
    {
        if offset > PAGE_SIZE - PTR_SIZE {
            return Err(Error::UnexpectedError("Outside of page when getting usize".to_owned()));
        }
        Ok(read_be_u64(self.data.as_slice(), offset))
    }

    /// Reads the eight bytes at `offset` as an offset or a count. Fails with
    /// `UnexpectedError` where they do not lie within the page, or spell a
    /// number that `usize` cannot hold.
    pub fn get_usize_from_offset(&self, offset: usize) -> (r: Result<usize, Error>)
        ensures
            Self::holds_usize(self@, offset as int) ==> r is Ok && r->Ok_0 == be_value(
                self@.subrange(offset as int, offset + PTR_SIZE),
            ),
            !Self::holds_usize(self@, offset as int) ==> r is Err && r->Err_0 is UnexpectedError,
    {
        let v = self.get_u64_from_offset(offset)?;
        if v > usize::MAX as u64 {
            return Err(Error::UnexpectedError("Number too large for this machine".to_owned()));
        }
        Ok(v as usize)
    }

    /// Whether the eight bytes at `offset` lie within the page and spell a
    /// number that `usize` can hold.
    pub open spec fn holds_usize(page: Seq<u8>, offset: int) -> bool {
        offset + PTR_SIZE <= PAGE_SIZE && be_value(page.subrange(offset, offset + PTR_SIZE))
            <= usize::MAX
    }

    /// Writes `v` into the eight bytes at `offset`. Fails with
    /// `UnexpectedError`, and leaves the page as it was, where they do not lie
    /// within the page.
    pub fn set_u64_at_offset(&mut self, offset: usize, v: u64) -> (r: Result<(), Error>)
        ensures
            offset + PTR_SIZE <= PAGE_SIZE ==> r is Ok && final(self)@ == splice(
                old(self)@,
                offset as int,
                be_bytes(v as nat, 8),
            ),
            offset + PTR_SIZE > PAGE_SIZE ==> r is Err && r->Err_0 is UnexpectedError && *final(self)
                == *old(self),
    {
        if offset > PAGE_SIZE - PTR_SIZE {
            return Err(Error::UnexpectedError("Outside of page when setting usize".to_owned()));
        }
        proof {
            crate::bytes::lemma_be_bytes_len(v as nat, 8);
        }
        write_be_u64(&mut self.data, offset, v);
        Ok(())
    }

    /// Reads the byte at `offset`. Fails with `UnexpectedError` where it does
    /// not lie within the page.
    pub fn get_byte(&self, offset: usize) -> (r: Result<u8, Error>)
        ensures
            offset < PAGE_SIZE ==> r is Ok && r->Ok_0 == self@[offset as int],
            offset >= PAGE_SIZE ==> r is Err && r->Err_0 is UnexpectedError,
    {
        if offset >= PAGE_SIZE {
            return Err(Error::UnexpectedError("Outside of page when getting byte".to_owned()));
        }
        Ok(self.data[offset])
    }

    /// Writes the byte at `offset`. Fails with `UnexpectedError`, and leaves
    /// the page as it was, where it does not lie within the page.
    pub fn set_byte(&mut self, offset: usize, byte: u8) -> (r: Result<(), Error>)
        ensures
            offset < PAGE_SIZE ==> r is Ok && final(self)@ == old(self)@.update(
                offset as int,
                byte,
            ),
            offset >= PAGE_SIZE ==> r is Err && r->Err_0 is UnexpectedError && *final(self) == *old(self),
    {
        if offset >= PAGE_SIZE {
            return Err(Error::UnexpectedError("Outside of page when setting byte".to_owned()));
        }
        self.data[offset] = byte;
        Ok(())
    }

    /// Reads the `len` bytes at `offset`. Fails with `UnexpectedError` where
    /// they do not lie within the page.
    pub fn get_slice(&self, offset: usize, len: usize) -> (r: Result<Vec<u8>, Error>)
        ensures
            offset + len <= PAGE_SIZE ==> r is Ok && r->Ok_0@ == self@.subrange(
                offset as int,
                offset + len,
            ),
            offset + len > PAGE_SIZE ==> r is Err && r->Err_0 is UnexpectedError,
    {
        if offset > PAGE_SIZE || len > PAGE_SIZE - offset {
            return Err(Error::UnexpectedError("Outside of page when getting bytes".to_owned()));
        }
        let part = vstd::slice::slice_subrange(self.data.as_slice(), offset, offset + len);
        Ok(vstd::slice::slice_to_vec(part))
    }

    /// Writes `bytes` at `offset`. Fails with `UnexpectedError`, and leaves
    /// the page as it was, where they do not lie within the page.
    pub fn set_slice(&mut self, offset: usize, bytes: &[u8]) -> (r: Result<(), Error>)
        ensures
            offset + bytes@.len() <= PAGE_SIZE ==> r is Ok && final(self)@ == splice(
                old(self)@,
                offset as int,
                bytes@,
            ),
            offset + bytes@.len() > PAGE_SIZE ==> r is Err && r->Err_0 is UnexpectedError && *final(self) == *old(self),
    {
        let len = bytes.len();
        if offset > PAGE_SIZE || len > PAGE_SIZE - offset {
            return Err(Error::UnexpectedError("Outside of page when setting bytes".to_owned()));
        }
        let ghost before = self@;
        let mut i: usize = 0;
        while i < len
            invariant
                i <= len,
                len == bytes@.len(),
                offset + len <= PAGE_SIZE,
                before.len() == PAGE_SIZE,
                self@.len() == PAGE_SIZE,
                forall|j: int| 0 <= j < offset || offset + i <= j < PAGE_SIZE ==> self@[j] == before[j],
                forall|j: int| 0 <= j < i ==> self@[offset + j] == bytes@[j],
            decreases len - i,
        {
            self.data[offset + i] = bytes[i];
            i = i + 1;
        }
        assert(self@ =~= splice(before, offset as int, bytes@));
        Ok(())
    }
}

impl From<[u8; PAGE_SIZE]> for Page {
    fn from(data: [u8; PAGE_SIZE]) -> (page: Self) {
        Self::new(data)
    }
}

impl vstd::std_specs::convert::FromSpecImpl<[u8; PAGE_SIZE]> for Page {
    open spec fn obeys_from_spec() -> bool {
        true
    }

    open spec fn from_spec(data: [u8; PAGE_SIZE]) -> Self {
        Page { data }
    }
}

} // verus!
