//! The sizes and places of what is stored in a page.

use crate::node::Node;
use vstd::prelude::*;

verus! {

/// Size in bytes of one page, the unit of storage.
pub const PAGE_SIZE: usize = 8192;

/// Size in bytes of an offset or a count as it is stored in a page.
pub const PTR_SIZE: usize = 8;

/// The longest key, in bytes: its length must fit in one byte.
pub const KEY_MAX_SIZE: usize = 0xff;

/// Size in bytes of a stored value.
pub const VALUE_SIZE: usize = 8;

// Node header
pub const IS_ROOT_SIZE: usize = 1;

pub const IS_ROOT_OFFSET: usize = 0;

pub const NODE_KIND_SIZE: usize = 1;

pub const NODE_KIND_OFFSET: usize = 1;

pub const PARENT_POINTER_SIZE: usize = 8;

pub const PARENT_POINTER_OFFSET: usize = 2;

pub const NODE_HEADER_SIZE: usize = 10;

// Leaf node layout
pub const LEAF_NEXT_SIZE: usize = 8;

pub const LEAF_NEXT_OFFSET: usize = 10;

pub const LEAF_PREVIOUS_SIZE: usize = 8;

pub const LEAF_PREVIOUS_OFFSET: usize = 18;

pub const LEAF_KEY_COUNT_SIZE: usize = 8;

pub const LEAF_KEY_COUNT_OFFSET: usize = 26;

pub const LEAF_HEADER_SIZE: usize = 34;

// Internal node layout
pub const INTERNAL_CHILD_COUNT_SIZE: usize = 8;

pub const INTERNAL_CHILD_COUNT_OFFSET: usize = 10;

pub const INTERNAL_HEADER_SIZE: usize = 18;

/// A node whose occupied space falls below this many bytes underflows.
pub const UNDERFLOW_SPACE: usize = PAGE_SIZE / 3;

/// Reading a byte as a flag. One is true; every other byte is false.
pub trait FromByte {
    spec fn byte_flag(&self) -> bool;

    fn from_byte(&self) -> (flag: bool)
        ensures
            flag == self.byte_flag(),
    ;
}

/// Writing a flag as a byte: one for true, zero for false.
pub trait ToByte {
    spec fn flag_byte(&self) -> u8;

    fn to_byte(&self) -> (byte: u8)
        ensures
            byte == self.flag_byte(),
    ;
}

impl FromByte for u8 {
    open spec fn byte_flag(&self) -> bool {
        *self == 1
    }

    fn from_byte(&self) -> (flag: bool) {
        *self == 1
    }
}

impl ToByte for bool {
    open spec fn flag_byte(&self) -> u8 {
        if *self {
            1
        } else {
            0
        }
    }

    fn to_byte(&self) -> (byte: u8) {
        match self {
            true => 1,
            false => 0,
        }
    }
}

} // verus!
