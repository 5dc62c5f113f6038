//! A single-file, copy-on-write B+tree index over fixed-size pages.
//!
//! Keys are strings of at most 255 bytes, values are 64-bit integers. The
//! index lives in a sequence of 8 KiB pages: page zero holds the
//! configuration, every other page is a tree node, a stored object or a
//! member of the free list.
//!
//! The library works on the bytes of the storage: `BTree::open` takes them,
//! `BTree::image` gives them back. Every operation that changes the tree
//! writes new pages for the nodes it touches, makes the new root known in
//! page zero, and only then gives the pages of the old nodes to the free
//! list.
//!
//! `btree` holds the index and what it means that it is sound; `insert` and
//! `delete` change it, `check` finds out whether a storage holds a sound
//! index, and `laws` states what holds of every sound index. `tree` is the
//! mathematics that the contracts speak of; `node`, `page` and `pager` are
//! the storage below.

pub mod btree;
pub mod bytes;
pub mod check;
pub mod delete;
pub mod error;
pub mod fit;
pub mod insert;
pub mod inspect;
pub mod key;
pub mod laws;
pub mod leaf;
pub mod node;
pub mod object;
pub mod occupancy;
pub mod outcome;
pub mod page;
pub mod page_layout;
pub mod pager;
pub mod rebalance;
pub mod reclaim;
pub mod split;
pub mod tree;

pub use btree::BTree;
pub use error::Error;
pub use page_layout::PAGE_SIZE;
