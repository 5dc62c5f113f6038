//! The nodes of the tree, and how a node is stored in a page and read from
//! one.

use crate::bytes::{be_bytes, be_value};
use crate::error::Error;
use crate::key::{Key, key_of};
use crate::page::Page;
use crate::page_layout::{
    FromByte, INTERNAL_CHILD_COUNT_OFFSET, INTERNAL_HEADER_SIZE, IS_ROOT_OFFSET, KEY_MAX_SIZE,
    LEAF_HEADER_SIZE, LEAF_KEY_COUNT_OFFSET, LEAF_NEXT_OFFSET, LEAF_PREVIOUS_OFFSET,
    NODE_KIND_OFFSET, PAGE_SIZE, PARENT_POINTER_OFFSET, PTR_SIZE, ToByte, VALUE_SIZE,
};
use crate::pager::Offset;
use vstd::prelude::*;
use vstd::string::StringSliceAdditionalSpecFns;
use vstd::utf8::{decode_utf8, valid_utf8};

verus! {

/// One key of a leaf with its value.
#[derive(Debug, Clone, PartialEq, Eq)]
pub struct KeyValuePair {
    pub key: String,
    pub value: u64,
}

impl KeyValuePair {
    /// The pair of `key` and `value`.
    pub fn new(key: String, value: u64) -> (pair: KeyValuePair)
        ensures
            pair.key == key,
            pair.value == value,
    {
        KeyValuePair { key, value }
    }
}

/// What a node holds. `occupied_space` counts the bytes of its page that are
/// in use, and one more; it is found again whenever a page is read and is
/// never stored.
#[derive(PartialEq, Debug, Clone)]
pub enum NodeKind {
    Internal { keys: Vec<String>, children: Vec<Offset>, occupied_space: usize },
    Leaf {
        next: Option<Offset>,
        previous: Option<Offset>,
        key_value_pairs: Vec<KeyValuePair>,
        occupied_space: usize,
    },
}

/// A node of the tree: one page of it. A node without a parent offset is
/// stored as a root.
#[derive(PartialEq, Debug, Clone)]
pub struct Node {
    pub node_kind: NodeKind,
    pub parent_offset: Option<Offset>,
}

/// What a node holds, as mathematics: keys are byte strings.
pub enum KindView {
    Internal { keys: Seq<Key>, children: Seq<usize> },
    Leaf { next: Option<usize>, previous: Option<usize>, pairs: Seq<(Key, u64)> },
}

/// A node as mathematics.
pub struct NodeView {
    pub kind: KindView,
    pub parent: Option<usize>,
}

/// The keys that a sequence of strings stands for.
pub open spec fn keys_view(keys: Seq<String>) -> Seq<Key> {
    Seq::new(keys.len(), |i: int| key_of(keys[i]@))
}

/// The pairs of keys and values that a sequence of pairs stands for.
pub open spec fn pairs_view(pairs: Seq<KeyValuePair>) -> Seq<(Key, u64)> {
    Seq::new(pairs.len(), |i: int| (key_of(pairs[i].key@), pairs[i].value))
}

/// The numbers in a sequence of offsets.
pub open spec fn offsets_view(offsets: Seq<Offset>) -> Seq<usize> {
    Seq::new(offsets.len(), |i: int| offsets[i].0)
}

/// The number in an offset that may be absent.
pub open spec fn offset_view(offset: Option<Offset>) -> Option<usize> {
    match offset {
        Some(o) => Some(o.0),
        None => None,
    }
}

impl View for NodeKind {
    type V = KindView;

    open spec fn view(&self) -> KindView {
        match *self {
            NodeKind::Internal { keys, children, occupied_space } => KindView::Internal {
                keys: keys_view(keys@),
                children: offsets_view(children@),
            },
            NodeKind::Leaf { next, previous, key_value_pairs, occupied_space } => KindView::Leaf {
                next: offset_view(next),
                previous: offset_view(previous),
                pairs: pairs_view(key_value_pairs@),
            },
        }
    }
}

impl View for Node {
    type V = NodeView;

    open spec fn view(&self) -> NodeView {
        NodeView { kind: self.node_kind@, parent: offset_view(self.parent_offset) }
    }
}

impl NodeKind {
    /// The space that the node says it occupies.
    pub open spec fn occupied(&self) -> usize {
        match *self {
            NodeKind::Internal { keys, children, occupied_space } => occupied_space,
            NodeKind::Leaf { next, previous, key_value_pairs, occupied_space } => occupied_space,
        }
    }

    /// The byte that tells the kind of a stored node: zero for an internal
    /// node, one for a leaf.
    pub fn kind_byte(&self) -> (byte: u8)
        ensures
            byte == kind_byte_of(self@),
    {
        match self {
            NodeKind::Internal { .. } => 0x00,
            NodeKind::Leaf { .. } => 0x01,
        }
    }

    /// The empty node of the kind that `byte` tells. Fails with
    /// `InvalidNodeKind` for a byte that is neither zero nor one.
    pub fn try_from(byte: u8) -> (r: Result<NodeKind, Error>)
        ensures
            byte == 0 ==> r is Ok && r->Ok_0@ == (KindView::Internal {
                keys: Seq::empty(),
                children: Seq::empty(),
            }) && r->Ok_0.occupied() == 0,
            byte == 1 ==> r is Ok && r->Ok_0@ == (KindView::Leaf {
                next: None,
                previous: None,
                pairs: Seq::empty(),
            }) && r->Ok_0.occupied() == 0,
            byte > 1 ==> r is Err && r->Err_0 is InvalidNodeKind,
    {
        match byte {
            0x00 => {
                let kind = NodeKind::Internal {
                    keys: Vec::new(),
                    children: Vec::new(),
                    occupied_space: 0,
                };
                assert(keys_view(Seq::<String>::empty()) =~= Seq::<Key>::empty());
                assert(offsets_view(Seq::<Offset>::empty()) =~= Seq::<usize>::empty());
                Ok(kind)
            },
            0x01 => {
                let kind = NodeKind::Leaf {
                    next: None,
                    previous: None,
                    key_value_pairs: Vec::new(),
                    occupied_space: 0,
                };
                assert(pairs_view(Seq::<KeyValuePair>::empty()) =~= Seq::<(Key, u64)>::empty());
                Ok(kind)
            },
            _ => Err(Error::InvalidNodeKind),
        }
    }
}

impl Node {
    /// The node of this kind with this parent offset.
    pub fn new(node_kind: NodeKind, parent_offset: Option<Offset>) -> (node: Node)
        ensures
            node.node_kind == node_kind,
            node.parent_offset == parent_offset,
    {
        Self { node_kind, parent_offset }
    }
}

/// The kind byte of a node.
pub open spec fn kind_byte_of(kind: KindView) -> u8 {
    match kind {
        KindView::Internal { .. } => 0,
        KindView::Leaf { .. } => 1,
    }
}

/// Why a page cannot be read as a node, or a node cannot be written as a
/// page.
pub enum Fault {
    /// The kind byte is neither zero nor one: `InvalidNodeKind`.
    InvalidKind,
    /// A stored key is empty or is not UTF-8: `KeyParseError`.
    KeyParse,
    /// A key is longer than 255 bytes: `KeyOverflowError`.
    KeyOverflow,
    /// Something does not lie within the page, or a number does not fit the
    /// machine: `UnexpectedError`.
    Range,
}

/// Whether the error `e` reports the fault `f`.
pub open spec fn is_fault(e: Error, f: Fault) -> bool {
    match f {
        Fault::InvalidKind => e is InvalidNodeKind,
        Fault::KeyParse => e is KeyParseError,
        Fault::KeyOverflow => e is KeyOverflowError,
        Fault::Range => e is UnexpectedError,
    }
}

/// The number that the eight bytes of `page` at `at` spell.
pub open spec fn word_at(page: Seq<u8>, at: int) -> nat {
    be_value(page.subrange(at, at + 8))
}

/// The key stored at `at`, with the place where it ends: a byte that holds
/// its length, then that many bytes of UTF-8.
pub open spec fn parse_key(page: Seq<u8>, at: int) -> Result<(Key, int), Fault> {
    if at >= PAGE_SIZE {
        Err(Fault::Range)
    } else if page[at] == 0 {
        Err(Fault::KeyParse)
    } else if at + 1 + page[at] > PAGE_SIZE {
        Err(Fault::Range)
    } else if !valid_utf8(page.subrange(at + 1, at + 1 + page[at])) {
        Err(Fault::KeyParse)
    } else {
        Ok((page.subrange(at + 1, at + 1 + page[at]), at + 1 + page[at]))
    }
}

/// The pair stored at `at`, with the place where it ends: a key, then the
/// eight bytes of its value.
pub open spec fn parse_pair(page: Seq<u8>, at: int) -> Result<((Key, u64), int), Fault> {
    match parse_key(page, at) {
        Err(f) => Err(f),
        Ok((key, mid)) => if mid + 8 > PAGE_SIZE {
            Err(Fault::Range)
        } else {
            Ok(((key, word_at(page, mid) as u64), mid + 8))
        },
    }
}

/// `acc` followed by the `n` pairs stored from `at` on, with the place where
/// the last one ends.
pub open spec fn parse_pairs(page: Seq<u8>, at: int, n: nat, acc: Seq<(Key, u64)>) -> Result<
    (Seq<(Key, u64)>, int),
    Fault,
>
    decreases n,
{
    if n == 0 {
        Ok((acc, at))
    } else {
        match parse_pair(page, at) {
            Err(f) => Err(f),
            Ok((pair, next)) => parse_pairs(page, next, (n - 1) as nat, acc.push(pair)),
        }
    }
}

/// `acc` followed by the `n` keys stored from `at` on, with the place where
/// the last one ends.
pub open spec fn parse_keys(page: Seq<u8>, at: int, n: nat, acc: Seq<Key>) -> Result<
    (Seq<Key>, int),
    Fault,
>
    decreases n,
{
    if n == 0 {
        Ok((acc, at))
    } else {
        match parse_key(page, at) {
            Err(f) => Err(f),
            Ok((key, next)) => parse_keys(page, next, (n - 1) as nat, acc.push(key)),
        }
    }
}

/// `acc` followed by the `n` offsets stored from `at` on, with the place
/// where the last one ends.
pub open spec fn parse_children(page: Seq<u8>, at: int, n: nat, acc: Seq<usize>) -> Result<
    (Seq<usize>, int),
    Fault,
>
    decreases n,
{
    if n == 0 {
        Ok((acc, at))
    } else if !Page::holds_usize(page, at) {
        Err(Fault::Range)
    } else {
        parse_children(page, at + 8, (n - 1) as nat, acc.push(word_at(page, at) as usize))
    }
}

/// The parent that a page names: none where it is marked as a root.
pub open spec fn parse_parent(page: Seq<u8>) -> Result<Option<usize>, Fault> {
    if page[IS_ROOT_OFFSET as int] == 1 {
        Ok(None)
    } else if !Page::holds_usize(page, PARENT_POINTER_OFFSET as int) {
        Err(Fault::Range)
    } else {
        Ok(Some(word_at(page, PARENT_POINTER_OFFSET as int) as usize))
    }
}

/// The leaf that a page names at `at` as its neighbour: none where the
/// offset is zero.
pub open spec fn parse_link(page: Seq<u8>, at: int) -> Result<Option<usize>, Fault> {
    if !Page::holds_usize(page, at) {
        Err(Fault::Range)
    } else if word_at(page, at) == 0 {
        Ok(None)
    } else {
        Ok(Some(word_at(page, at) as usize))
    }
}

/// What an internal page holds after its header, with the place where it
/// ends: one key fewer than it has children, then the children.
pub open spec fn parse_internal(page: Seq<u8>) -> Result<(KindView, int), Fault> {
    let count = word_at(page, INTERNAL_CHILD_COUNT_OFFSET as int);
    let key_count = if count == 0 {
        0
    } else {
        (count - 1) as nat
    };
    match parse_keys(page, INTERNAL_HEADER_SIZE as int, key_count, Seq::empty()) {
        Err(f) => Err(f),
        Ok((keys, mid)) => match parse_children(page, mid, count, Seq::empty()) {
            Err(f) => Err(f),
            Ok((children, end)) => Ok((KindView::Internal { keys, children }, end)),
        },
    }
}

/// What a leaf page holds after its first ten bytes, with the place where it
/// ends: the two neighbours, the number of pairs, and the pairs.
pub open spec fn parse_leaf(page: Seq<u8>) -> Result<(KindView, int), Fault> {
    match parse_link(page, LEAF_NEXT_OFFSET as int) {
        Err(f) => Err(f),
        Ok(next) => match parse_link(page, LEAF_PREVIOUS_OFFSET as int) {
            Err(f) => Err(f),
            Ok(previous) => match parse_pairs(
                page,
                LEAF_HEADER_SIZE as int,
                word_at(page, LEAF_KEY_COUNT_OFFSET as int),
                Seq::empty(),
            ) {
                Err(f) => Err(f),
                Ok((pairs, end)) => Ok((KindView::Leaf { next, previous, pairs }, end)),
            },
        },
    }
}

/// The node that a page holds, with the place where its last entry ends, or
/// the first fault met when reading the page from its start.
pub open spec fn decode(page: Seq<u8>) -> Result<(NodeView, int), Fault> {
    if page[NODE_KIND_OFFSET as int] > 1 {
        Err(Fault::InvalidKind)
    } else {
        match parse_parent(page) {
            Err(f) => Err(f),
            Ok(parent) => {
                let body = if page[NODE_KIND_OFFSET as int] == 0 {
                    parse_internal(page)
                } else {
                    parse_leaf(page)
                };
                match body {
                    Err(f) => Err(f),
                    Ok((kind, end)) => Ok((NodeView { kind, parent }, end)),
                }
            },
        }
    }
}

/// The string that `bytes` spell in UTF-8, if they spell one. This holds
/// the call of `String::from_utf8`: it gives a string exactly where the
/// bytes are valid UTF-8, and the string is their decoding.
#[verifier::external_body]
fn string_from_utf8(bytes: Vec<u8>) -> (r: Option<String>)
    ensures
        r is Some <==> valid_utf8(bytes@),
        r is Some ==> r->Some_0@ == decode_utf8(bytes@),
{
    String::from_utf8(bytes).ok()
}

/// Reads the key stored at `at`.
fn read_key(page: &Page, at: usize) -> (r: Result<(String, usize), Error>)
    ensures
        match parse_key(page@, at as int) {
            Ok((key, next)) => r is Ok && key_of(r->Ok_0.0@) == key && r->Ok_0.1 == next,
            Err(f) => r is Err && is_fault(r->Err_0, f),
        },
{
    let len = page.get_byte(at)? as usize;
    if len == 0 {
        return Err(Error::KeyParseError);
    }
    let bytes = page.get_slice(at + 1, len)?;
    let ghost stored = bytes@;
    match string_from_utf8(bytes) {
        Some(key) => {
            proof {
                vstd::utf8::decode_utf8_encode_utf8(stored);
            }
            Ok((key, at + 1 + len))
        },
        None => Err(Error::KeyParseError),
    }
}

/// Reads the neighbour that a leaf names at `at`.
fn read_link(page: &Page, at: usize) -> (r: Result<Option<Offset>, Error>)
    ensures
        match parse_link(page@, at as int) {
            Ok(link) => r is Ok && offset_view(r->Ok_0) == link,
            Err(f) => r is Err && is_fault(r->Err_0, f),
        },
{
    let word = page.get_usize_from_offset(at)?;
    if word == 0 {
        Ok(None)
    } else {
        Ok(Some(Offset(word)))
    }
}

/// Reads what an internal page holds after its header.
fn read_internal(page: &Page) -> (r: Result<NodeKind, Error>)
    ensures
        match parse_internal(page@) {
            Ok((kind, end)) => r is Ok && r->Ok_0@ == kind && r->Ok_0.occupied() == end + 1
                && r->Ok_0 is Internal,
            Err(f) => r is Err && is_fault(r->Err_0, f),
        },
{
    let count = page.get_u64_from_offset(INTERNAL_CHILD_COUNT_OFFSET)?;
    let key_count: u64 = if count == 0 {
        0
    } else {
        count - 1
    };
    let mut keys: Vec<String> = Vec::new();
    let mut offset: usize = INTERNAL_HEADER_SIZE;
    let mut i: u64 = 0;
    assert(keys_view(keys@) =~= Seq::<Key>::empty());
    while i < key_count
        invariant
            i <= key_count,
            offset <= PAGE_SIZE,
            count == word_at(page@, INTERNAL_CHILD_COUNT_OFFSET as int),
            key_count == if count == 0 { 0 } else { count - 1 },
            parse_keys(page@, INTERNAL_HEADER_SIZE as int, key_count as nat, Seq::empty())
                == parse_keys(page@, offset as int, (key_count - i) as nat, keys_view(keys@)),
        decreases key_count - i,
    {
        let ghost before = keys_view(keys@);
        let (key, next) = read_key(page, offset)?;
        keys.push(key);
        offset = next;
        i = i + 1;
        assert(keys_view(keys@) =~= before.push(key_of(key@)));
    }
    let ghost mid = offset;
    let mut children: Vec<Offset> = Vec::new();
    let mut j: u64 = 0;
    assert(offsets_view(children@) =~= Seq::<usize>::empty());
    while j < count
        invariant
            j <= count,
            offset <= PAGE_SIZE,
            count == word_at(page@, INTERNAL_CHILD_COUNT_OFFSET as int),
            key_count == if count == 0 { 0 } else { count - 1 },
            parse_keys(page@, INTERNAL_HEADER_SIZE as int, key_count as nat, Seq::empty()) == Ok::<
                (Seq<Key>, int),
                Fault,
            >((keys_view(keys@), mid as int)),
            parse_children(page@, mid as int, count as nat, Seq::empty()) == parse_children(
                page@,
                offset as int,
                (count - j) as nat,
                offsets_view(children@),
            ),
        decreases count - j,
    {
        let ghost before = offsets_view(children@);
        let child = page.get_usize_from_offset(offset)?;
        children.push(Offset(child));
        offset = offset + PTR_SIZE;
        j = j + 1;
        assert(offsets_view(children@) =~= before.push(child));
    }
    Ok(NodeKind::Internal { keys, children, occupied_space: offset + 1 })
}

/// Reads what a leaf page holds after its first ten bytes.
fn read_leaf(page: &Page) -> (r: Result<NodeKind, Error>)
    ensures
        match parse_leaf(page@) {
            Ok((kind, end)) => r is Ok && r->Ok_0@ == kind && r->Ok_0.occupied() == end + 1
                && r->Ok_0 is Leaf,
            Err(f) => r is Err && is_fault(r->Err_0, f),
        },
{
    let next = read_link(page, LEAF_NEXT_OFFSET)?;
    let previous = read_link(page, LEAF_PREVIOUS_OFFSET)?;
    let count = page.get_u64_from_offset(LEAF_KEY_COUNT_OFFSET)?;
    let mut key_value_pairs: Vec<KeyValuePair> = Vec::new();
    let mut idx: usize = LEAF_HEADER_SIZE;
    let mut i: u64 = 0;
    assert(pairs_view(key_value_pairs@) =~= Seq::<(Key, u64)>::empty());
    while i < count
        invariant
            i <= count,
            idx <= PAGE_SIZE,
            count == word_at(page@, LEAF_KEY_COUNT_OFFSET as int),
            parse_link(page@, LEAF_NEXT_OFFSET as int) == Ok::<Option<usize>, Fault>(
                offset_view(next),
            ),
            parse_link(page@, LEAF_PREVIOUS_OFFSET as int) == Ok::<Option<usize>, Fault>(
                offset_view(previous),
            ),
            parse_pairs(page@, LEAF_HEADER_SIZE as int, count as nat, Seq::empty())
                == parse_pairs(
                page@,
                idx as int,
                (count - i) as nat,
                pairs_view(key_value_pairs@),
            ),
        decreases count - i,
    {
        let ghost before = pairs_view(key_value_pairs@);
        let (key, mid) = read_key(page, idx)?;
        let value = page.get_u64_from_offset(mid)?;
        key_value_pairs.push(KeyValuePair { key, value });
        idx = mid + PTR_SIZE;
        i = i + 1;
        assert(pairs_view(key_value_pairs@) =~= before.push((key_of(key@), value)));
    }
    Ok(NodeKind::Leaf { next, previous, key_value_pairs, occupied_space: idx + 1 })
}

impl Node {
    /// Reads a page as a node. The result is the node that `decode` finds in
    /// the page, with its occupied space counted anew, or the error for the
    /// first fault that `decode` meets.
    pub fn try_from(page: Page) -> (r: Result<Node, Error>)
        ensures
            match decode(page@) {
                Ok((node, end)) => r is Ok && r->Ok_0@ == node && r->Ok_0.node_kind.occupied()
                    == end + 1,
                Err(f) => r is Err && is_fault(r->Err_0, f),
            },
    {
        let kind_byte = page.get_byte(NODE_KIND_OFFSET)?;
        if kind_byte > 1 {
            return Err(Error::InvalidNodeKind);
        }
        let is_root = page.get_byte(IS_ROOT_OFFSET)?.from_byte();
        let parent_offset = if is_root {
            None
        } else {
            Some(Offset(page.get_usize_from_offset(PARENT_POINTER_OFFSET)?))
        };
        let node_kind = if kind_byte == 0 {
            read_internal(&page)?
        } else {
            read_leaf(&page)?
        };
        Ok(Node { parent_offset, node_kind })
    }
}

/// The bytes of a stored key: its length in one byte, then the key.
pub open spec fn key_slot(key: Key) -> Seq<u8> {
    seq![key.len() as u8] + key
}

/// The bytes of a stored pair: the key, then the eight bytes of the value.
pub open spec fn pair_slot(pair: (Key, u64)) -> Seq<u8> {
    key_slot(pair.0) + be_bytes(pair.1 as nat, 8)
}

/// The bytes of stored keys, one after the other.
pub open spec fn keys_bytes(keys: Seq<Key>) -> Seq<u8>
    decreases keys.len(),
{
    if keys.len() == 0 {
        Seq::empty()
    } else {
        key_slot(keys[0]) + keys_bytes(keys.drop_first())
    }
}

/// The bytes of stored pairs, one after the other.
pub open spec fn pairs_bytes(pairs: Seq<(Key, u64)>) -> Seq<u8>
    decreases pairs.len(),
{
    if pairs.len() == 0 {
        Seq::empty()
    } else {
        pair_slot(pairs[0]) + pairs_bytes(pairs.drop_first())
    }
}

/// The bytes of stored offsets, eight for each.
pub open spec fn children_bytes(children: Seq<usize>) -> Seq<u8>
    decreases children.len(),
{
    if children.len() == 0 {
        Seq::empty()
    } else {
        be_bytes(children[0] as nat, 8) + children_bytes(children.drop_first())
    }
}

/// The number stored for an offset that may be absent: zero for none.
pub open spec fn link_word(link: Option<usize>) -> nat {
    match link {
        Some(o) => o as nat,
        None => 0,
    }
}

/// The header of a stored node: the root flag, the kind, the parent, and for
/// a leaf its neighbours and the number of its pairs, for an internal node
/// the number of its children.
pub open spec fn header_bytes(node: NodeView) -> Seq<u8> {
    seq![(node.parent is None).flag_byte(), kind_byte_of(node.kind)] + be_bytes(
        link_word(node.parent),
        8,
    ) + match node.kind {
        KindView::Internal { keys, children } => be_bytes(children.len(), 8),
        KindView::Leaf { next, previous, pairs } => be_bytes(link_word(next), 8) + be_bytes(
            link_word(previous),
            8,
        ) + be_bytes(pairs.len(), 8),
    }
}

/// What follows the header of a stored node: the pairs of a leaf; the keys
/// of an internal node and then its children.
pub open spec fn body_bytes(node: NodeView) -> Seq<u8> {
    match node.kind {
        KindView::Internal { keys, children } => keys_bytes(keys) + children_bytes(children),
        KindView::Leaf { next, previous, pairs } => pairs_bytes(pairs),
    }
}

/// `n` zeros.
pub open spec fn zeros(n: int) -> Seq<u8> {
    Seq::new(n as nat, |i: int| 0u8)
}

/// The page that stores a node: header, body, and zeros to the end.
pub open spec fn layout(node: NodeView) -> Seq<u8> {
    let used = header_bytes(node) + body_bytes(node);
    used + zeros(PAGE_SIZE - used.len())
}

/// The first fault met when storing `pairs` from `at` on: a key longer than
/// 255 bytes, or a pair that would reach the end of the page.
pub open spec fn pairs_fault(pairs: Seq<(Key, u64)>, at: int) -> Option<Fault>
    decreases pairs.len(),
{
    if pairs.len() == 0 {
        None
    } else if pairs[0].0.len() > KEY_MAX_SIZE {
        Some(Fault::KeyOverflow)
    } else if at + pairs[0].0.len() + 1 + VALUE_SIZE >= PAGE_SIZE {
        Some(Fault::Range)
    } else {
        pairs_fault(pairs.drop_first(), at + pairs[0].0.len() + 1 + VALUE_SIZE)
    }
}

/// The first fault met when storing `keys` from `at` on: a key longer than
/// 255 bytes, or one that would reach the end of the page.
pub open spec fn keys_fault(keys: Seq<Key>, at: int) -> Option<Fault>
    decreases keys.len(),
{
    if keys.len() == 0 {
        None
    } else if keys[0].len() > KEY_MAX_SIZE {
        Some(Fault::KeyOverflow)
    } else if at + keys[0].len() + 1 >= PAGE_SIZE {
        Some(Fault::Range)
    } else {
        keys_fault(keys.drop_first(), at + keys[0].len() + 1)
    }
}

/// The fault met when storing `n` offsets from `at` on: they would reach
/// the end of the page.
pub open spec fn children_fault(n: nat, at: int) -> Option<Fault> {
    if n > 0 && at + n * PTR_SIZE >= PAGE_SIZE {
        Some(Fault::Range)
    } else {
        None
    }
}

/// The first fault met when storing a node, if there is one.
pub open spec fn encode_fault(node: NodeView) -> Option<Fault> {
    match node.kind {
        KindView::Internal { keys, children } => match keys_fault(
            keys,
            INTERNAL_HEADER_SIZE as int,
        ) {
            Some(f) => Some(f),
            None => children_fault(children.len(), INTERNAL_HEADER_SIZE + keys_bytes(keys).len()),
        },
        KindView::Leaf { next, previous, pairs } => pairs_fault(pairs, LEAF_HEADER_SIZE as int),
    }
}

/// The page that stores a node, or the first fault met when storing it.
pub open spec fn encode(node: NodeView) -> Result<Seq<u8>, Fault> {
    match encode_fault(node) {
        Some(f) => Err(f),
        None => Ok(layout(node)),
    }
}

/// The bytes of stored keys with one more key behind them are the bytes
/// of the keys and then those of that key.
pub proof fn lemma_keys_bytes_push(keys: Seq<Key>, key: Key)
    ensures
        keys_bytes(keys.push(key)) == keys_bytes(keys) + key_slot(key),
    decreases keys.len(),
{
    if keys.len() == 0 {
        assert(keys.push(key).drop_first() =~= keys);
        assert(keys_bytes(keys.push(key)) =~= keys_bytes(keys) + key_slot(key));
    } else {
        lemma_keys_bytes_push(keys.drop_first(), key);
        assert(keys.push(key).drop_first() =~= keys.drop_first().push(key));
        assert(keys_bytes(keys.push(key)) =~= keys_bytes(keys) + key_slot(key));
    }
}

/// The bytes of stored pairs with one more pair behind them are the bytes
/// of the pairs and then those of that pair.
pub proof fn lemma_pairs_bytes_push(pairs: Seq<(Key, u64)>, pair: (Key, u64))
    ensures
        pairs_bytes(pairs.push(pair)) == pairs_bytes(pairs) + pair_slot(pair),
    decreases pairs.len(),
{
    if pairs.len() == 0 {
        assert(pairs.push(pair).drop_first() =~= pairs);
        assert(pairs_bytes(pairs.push(pair)) =~= pairs_bytes(pairs) + pair_slot(pair));
    } else {
        lemma_pairs_bytes_push(pairs.drop_first(), pair);
        assert(pairs.push(pair).drop_first() =~= pairs.drop_first().push(pair));
        assert(pairs_bytes(pairs.push(pair)) =~= pairs_bytes(pairs) + pair_slot(pair));
    }
}

/// Stored offsets take eight bytes each.
pub proof fn lemma_children_bytes_len(children: Seq<usize>)
    ensures
        children_bytes(children).len() == 8 * children.len(),
    decreases children.len(),
{
    if children.len() > 0 {
        crate::bytes::lemma_be_bytes_len(children[0] as nat, 8);
        lemma_children_bytes_len(children.drop_first());
    }
}

/// The bytes of stored offsets with one more offset behind them are the
/// bytes of the offsets and then those of that offset.
pub proof fn lemma_children_bytes_push(children: Seq<usize>, child: usize)
    ensures
        children_bytes(children.push(child)) == children_bytes(children) + be_bytes(
            child as nat,
            8,
        ),
        children_bytes(children).len() == 8 * children.len(),
    decreases children.len(),
{
    crate::bytes::lemma_be_bytes_len(child as nat, 8);
    if children.len() == 0 {
        assert(children.push(child).drop_first() =~= children);
        assert(children_bytes(children.push(child)) =~= children_bytes(children) + be_bytes(
            child as nat,
            8,
        ));
    } else {
        lemma_children_bytes_push(children.drop_first(), child);
        crate::bytes::lemma_be_bytes_len(children[0] as nat, 8);
        assert(children.push(child).drop_first() =~= children.drop_first().push(child));
        assert(children_bytes(children.push(child)) =~= children_bytes(children) + be_bytes(
            child as nat,
            8,
        ));
    }
}

/// Writes the header of `node` into a page of zeros.
fn write_header(node: &Node) -> (page: Page)
    ensures
        page@ == header_bytes(node@) + zeros(PAGE_SIZE - header_bytes(node@).len()),
        header_bytes(node@).len() == (if node.node_kind is Leaf {
            LEAF_HEADER_SIZE
        } else {
            INTERNAL_HEADER_SIZE
        }),
{
    let mut page = Page::new_empty();
    let is_root = node.parent_offset.is_none();
    let parent: usize = match node.parent_offset {
        Some(o) => o.0,
        None => 0,
    };
    proof {
        crate::bytes::lemma_be_bytes_len(link_word(node@.parent), 8);
    }
    let _ = page.set_byte(IS_ROOT_OFFSET, is_root.to_byte());
    let _ = page.set_byte(NODE_KIND_OFFSET, node.node_kind.kind_byte());
    let _ = page.set_u64_at_offset(PARENT_POINTER_OFFSET, parent as u64);
    match &node.node_kind {
        NodeKind::Internal { keys, children, occupied_space } => {
            proof {
                crate::bytes::lemma_be_bytes_len(children@.len(), 8);
            }
            let _ = page.set_u64_at_offset(INTERNAL_CHILD_COUNT_OFFSET, children.len() as u64);
            assert(page@ =~= header_bytes(node@) + zeros(PAGE_SIZE - header_bytes(node@).len()));
        },
        NodeKind::Leaf { next, previous, key_value_pairs, occupied_space } => {
            let next_word: usize = match next {
                Some(o) => o.0,
                None => 0,
            };
            let previous_word: usize = match previous {
                Some(o) => o.0,
                None => 0,
            };
            proof {
                crate::bytes::lemma_be_bytes_len(link_word(offset_view(*next)), 8);
                crate::bytes::lemma_be_bytes_len(link_word(offset_view(*previous)), 8);
                crate::bytes::lemma_be_bytes_len(key_value_pairs@.len(), 8);
            }
            let _ = page.set_u64_at_offset(LEAF_NEXT_OFFSET, next_word as u64);
            let _ = page.set_u64_at_offset(LEAF_PREVIOUS_OFFSET, previous_word as u64);
            let _ = page.set_u64_at_offset(LEAF_KEY_COUNT_OFFSET, key_value_pairs.len() as u64);
            assert(page@ =~= header_bytes(node@) + zeros(PAGE_SIZE - header_bytes(node@).len()));
        },
    }
    page
}

/// Writing `slot` where the zeros of a page begin lengthens what the page
/// holds before its zeros by `slot`.
proof fn lemma_splice_zeros(used: Seq<u8>, slot: Seq<u8>)
    requires
        used.len() + slot.len() <= PAGE_SIZE,
    ensures
        crate::page::splice(used + zeros(PAGE_SIZE - used.len()), used.len() as int, slot) == (used
            + slot) + zeros(PAGE_SIZE - used.len() - slot.len()),
{
    assert(crate::page::splice(used + zeros(PAGE_SIZE - used.len()), used.len() as int, slot)
        =~= (used + slot) + zeros(PAGE_SIZE - used.len() - slot.len()));
}

/// Writes the key `key` at `offset`, its length first.
fn put_key(page: &mut Page, offset: usize, key: &str) -> (end: usize)
    requires
        key_of(key@).len() <= KEY_MAX_SIZE,
        offset + 1 + key_of(key@).len() <= PAGE_SIZE,
    ensures
        end == offset + 1 + key_of(key@).len(),
        final(page)@ == crate::page::splice(old(page)@, offset as int, key_slot(key_of(key@))),
{
    let bytes = key.as_bytes();
    let len = bytes.len();
    let ghost before = page@;
    let _ = page.set_byte(offset, len as u8);
    let _ = page.set_slice(offset + 1, bytes);
    assert(page@ =~= crate::page::splice(before, offset as int, key_slot(key_of(key@))));
    offset + 1 + len
}

impl Page {
    /// Writes a node as a page. The result is the page that `encode` gives
    /// for the node, or the error for the first fault that `encode` meets.
    pub fn try_from(node: &Node) -> (r: Result<Page, Error>)
        ensures
            match encode(node@) {
                Ok(bytes) => r is Ok && r->Ok_0@ == bytes,
                Err(f) => r is Err && is_fault(r->Err_0, f),
            },
    {
        let mut page = write_header(node);
        let ghost header = header_bytes(node@);
        match &node.node_kind {
            NodeKind::Internal { keys, children, occupied_space } => {
                let ghost all = keys_view(keys@);
                let ghost kids = offsets_view(children@);
                let mut offset: usize = INTERNAL_HEADER_SIZE;
                let mut i: usize = 0;
                assert(all.take(0) =~= Seq::<Key>::empty());
                assert(all.skip(0) =~= all);
                assert(header + keys_bytes(all.take(0)) =~= header);
                while i < keys.len()
                    invariant
                        i <= keys.len(),
                        all == keys_view(keys@),
                        node@.kind == (KindView::Internal { keys: all, children: kids }),
                        header.len() == INTERNAL_HEADER_SIZE,
                        offset == INTERNAL_HEADER_SIZE + keys_bytes(all.take(i as int)).len(),
                        offset < PAGE_SIZE,
                        page@ == (header + keys_bytes(all.take(i as int))) + zeros(
                            PAGE_SIZE - offset,
                        ),
                        keys_fault(all, INTERNAL_HEADER_SIZE as int) == keys_fault(
                            all.skip(i as int),
                            offset as int,
                        ),
                    decreases keys.len() - i,
                {
                    let key = keys[i].as_str();
                    let len = key.as_bytes().len();
                    proof {
                        assert(all.skip(i as int)[0] == all[i as int]);
                        assert(all[i as int] == key_of(key@));
                        assert(all.skip(i as int).drop_first() =~= all.skip(i + 1));
                        assert(all.take(i + 1) =~= all.take(i as int).push(all[i as int]));
                        lemma_keys_bytes_push(all.take(i as int), all[i as int]);
                    }
                    if len > KEY_MAX_SIZE {
                        return Err(Error::KeyOverflowError);
                    }
                    if offset + len + 1 >= PAGE_SIZE {
                        return Err(
                            Error::UnexpectedError("Node has too many keys - overflowing".to_owned()),
                        );
                    }
                    proof {
                        lemma_splice_zeros(
                            header + keys_bytes(all.take(i as int)),
                            key_slot(all[i as int]),
                        );
                    }
                    offset = put_key(&mut page, offset, key);
                    i = i + 1;
                    assert(page@ == (header + keys_bytes(all.take(i as int))) + zeros(
                        PAGE_SIZE - offset,
                    )) by {
                        assert(header + keys_bytes(all.take(i as int)) =~= (header + keys_bytes(
                            all.take(i - 1),
                        )) + key_slot(all[i - 1]));
                    }
                }
                assert(all.take(keys.len() as int) =~= all);
                let ghost mid = offset;
                let mut j: usize = 0;
                assert(kids.take(0) =~= Seq::<usize>::empty());
                assert((header + keys_bytes(all)) + children_bytes(kids.take(0)) =~= header
                    + keys_bytes(all));
                while j < children.len()
                    invariant
                        j <= children.len(),
                        kids == offsets_view(children@),
                        node@.kind == (KindView::Internal { keys: all, children: kids }),
                        keys_fault(all, INTERNAL_HEADER_SIZE as int) is None,
                        header.len() == INTERNAL_HEADER_SIZE,
                        offset == mid + 8 * j,
                        offset < PAGE_SIZE,
                        mid == header.len() + keys_bytes(all).len(),
                        page@ == ((header + keys_bytes(all)) + children_bytes(kids.take(j as int)))
                            + zeros(PAGE_SIZE - offset),
                    decreases children.len() - j,
                {
                    if offset + PTR_SIZE >= PAGE_SIZE {
                        return Err(
                            Error::UnexpectedError(
                                "Node has too many children - overflowing".to_owned(),
                            ),
                        );
                    }
                    proof {
                        assert(kids.take(j + 1) =~= kids.take(j as int).push(kids[j as int]));
                        lemma_children_bytes_push(kids.take(j as int), kids[j as int]);
                        crate::bytes::lemma_be_bytes_len(kids[j as int] as nat, 8);
                        lemma_splice_zeros(
                            (header + keys_bytes(all)) + children_bytes(kids.take(j as int)),
                            be_bytes(kids[j as int] as nat, 8),
                        );
                    }
                    let _ = page.set_u64_at_offset(offset, children[j].0 as u64);
                    offset = offset + PTR_SIZE;
                    j = j + 1;
                }
                proof {
                    assert(kids.take(children.len() as int) =~= kids);
                    assert((header + keys_bytes(all)) + children_bytes(kids) =~= header + (
                    keys_bytes(all) + children_bytes(kids)));
                    lemma_children_bytes_len(kids);
                }
                Ok(page)
            },
            NodeKind::Leaf { next, previous, key_value_pairs, occupied_space } => {
                let ghost all = pairs_view(key_value_pairs@);
                let mut offset: usize = LEAF_HEADER_SIZE;
                let mut i: usize = 0;
                assert(all.take(0) =~= Seq::<(Key, u64)>::empty());
                assert(all.skip(0) =~= all);
                assert(header + pairs_bytes(all.take(0)) =~= header);
                while i < key_value_pairs.len()
                    invariant
                        i <= key_value_pairs.len(),
                        all == pairs_view(key_value_pairs@),
                        node@.kind is Leaf,
                        node@.kind->Leaf_pairs == all,
                        header.len() == LEAF_HEADER_SIZE,
                        offset == LEAF_HEADER_SIZE + pairs_bytes(all.take(i as int)).len(),
                        offset < PAGE_SIZE,
                        page@ == (header + pairs_bytes(all.take(i as int))) + zeros(
                            PAGE_SIZE - offset,
                        ),
                        pairs_fault(all, LEAF_HEADER_SIZE as int) == pairs_fault(
                            all.skip(i as int),
                            offset as int,
                        ),
                    decreases key_value_pairs.len() - i,
                {
                    let key = key_value_pairs[i].key.as_str();
                    let value = key_value_pairs[i].value;
                    let len = key.as_bytes().len();
                    proof {
                        assert(all.skip(i as int)[0] == all[i as int]);
                        assert(all[i as int] == (key_of(key@), value));
                        assert(all.skip(i as int).drop_first() =~= all.skip(i + 1));
                        assert(all.take(i + 1) =~= all.take(i as int).push(all[i as int]));
                        lemma_pairs_bytes_push(all.take(i as int), all[i as int]);
                        crate::bytes::lemma_be_bytes_len(value as nat, 8);
                    }
                    if len > KEY_MAX_SIZE {
                        return Err(Error::KeyOverflowError);
                    }
                    if offset + len + 1 + VALUE_SIZE >= PAGE_SIZE {
                        return Err(
                            Error::UnexpectedError(
                                "Leaf node has too many children - overflowing".to_owned(),
                            ),
                        );
                    }
                    let ghost used = header + pairs_bytes(all.take(i as int));
                    proof {
                        lemma_splice_zeros(used, key_slot(all[i as int].0));
                        lemma_splice_zeros(
                            used + key_slot(all[i as int].0),
                            be_bytes(value as nat, 8),
                        );
                    }
                    let mid = put_key(&mut page, offset, key);
                    let _ = page.set_u64_at_offset(mid, value);
                    offset = mid + VALUE_SIZE;
                    i = i + 1;
                    assert(page@ == (header + pairs_bytes(all.take(i as int))) + zeros(
                        PAGE_SIZE - offset,
                    )) by {
                        assert(header + pairs_bytes(all.take(i as int)) =~= (used + key_slot(
                            all[i - 1].0,
                        )) + be_bytes(value as nat, 8));
                    }
                }
                assert(all.take(key_value_pairs.len() as int) =~= all);
                Ok(page)
            },
        }
    }
}

/// Whether a key can be stored and read back: it has between 1 and 255
/// bytes, and they are UTF-8.
pub open spec fn key_storable(key: Key) -> bool {
    1 <= key.len() <= KEY_MAX_SIZE && valid_utf8(key)
}

/// Whether a node is read back as it was stored: every key can be, no
/// neighbour of a leaf is the offset zero, which stands for none, and an
/// internal node has one key fewer than it has children, or neither.
pub open spec fn storable(node: NodeView) -> bool {
    match node.kind {
        KindView::Internal { keys, children } => {
            &&& forall|i: int| 0 <= i < keys.len() ==> key_storable(#[trigger] keys[i])
            &&& (children.len() == keys.len() + 1 || (children.len() == 0 && keys.len() == 0))
        },
        KindView::Leaf { next, previous, pairs } => {
            &&& forall|i: int| 0 <= i < pairs.len() ==> key_storable((#[trigger] pairs[i]).0)
            &&& next != Some(0usize)
            &&& previous != Some(0usize)
        },
    }
}

proof fn lemma_word_of_bytes(page: Seq<u8>, at: int, v: nat)
    requires
        0 <= at,
        at + 8 <= page.len(),
        page.subrange(at, at + 8) == be_bytes(v, 8),
        v <= u64::MAX,
    ensures
        word_at(page, at) == v,
{
    crate::bytes::lemma_pow256_8();
    crate::bytes::lemma_be_value_of_bytes(v, 8);
}

proof fn lemma_parse_stored_key(page: Seq<u8>, at: int, key: Key)
    requires
        0 <= at,
        at + 1 + key.len() <= PAGE_SIZE,
        page.len() == PAGE_SIZE,
        page.subrange(at, at + 1 + key.len()) == key_slot(key),
        key_storable(key),
    ensures
        parse_key(page, at) == Ok::<(Key, int), Fault>((key, at + 1 + key.len())),
{
    let slot = page.subrange(at, at + 1 + key.len());
    assert(page[at] == slot[0]);
    assert(slot[0] == key.len() as u8);
    assert(page.subrange(at + 1, at + 1 + key.len()) =~= key) by {
        assert forall|i: int| 0 <= i < key.len() implies page[at + 1 + i] == key[i] by {
            assert(page[at + 1 + i] == slot[1 + i]);
        }
    }
}

proof fn lemma_parse_stored_keys(page: Seq<u8>, at: int, keys: Seq<Key>, acc: Seq<Key>)
    requires
        0 <= at,
        at + keys_bytes(keys).len() <= PAGE_SIZE,
        page.len() == PAGE_SIZE,
        page.subrange(at, at + keys_bytes(keys).len()) == keys_bytes(keys),
        forall|i: int| 0 <= i < keys.len() ==> key_storable(#[trigger] keys[i]),
    ensures
        parse_keys(page, at, keys.len(), acc) == Ok::<(Seq<Key>, int), Fault>(
            (acc + keys, at + keys_bytes(keys).len()),
        ),
    decreases keys.len(),
{
    if keys.len() == 0 {
        assert(acc + keys =~= acc);
    } else {
        let key = keys[0];
        let rest = keys.drop_first();
        let all = keys_bytes(keys);
        let next = at + 1 + key.len();
        assert(key_storable(key));
        assert(all == key_slot(key) + keys_bytes(rest));
        assert(page.subrange(at, next) =~= key_slot(key)) by {
            assert forall|i: int| 0 <= i < 1 + key.len() implies page[at + i] == key_slot(key)[i] by {
                assert(page[at + i] == page.subrange(at, at + all.len())[i]);
            }
        }
        lemma_parse_stored_key(page, at, key);
        assert(page.subrange(next, next + keys_bytes(rest).len()) =~= keys_bytes(rest)) by {
            assert forall|i: int| 0 <= i < keys_bytes(rest).len() implies page[next + i]
                == keys_bytes(rest)[i] by {
                assert(page[next + i] == page.subrange(at, at + all.len())[1 + key.len() + i]);
            }
        }
        assert forall|i: int| 0 <= i < rest.len() implies key_storable(#[trigger] rest[i]) by {
            assert(rest[i] == keys[i + 1]);
        }
        lemma_parse_stored_keys(page, next, rest, acc.push(key));
        assert(acc.push(key) + rest =~= acc + keys);
    }
}

proof fn lemma_parse_stored_pairs(
    page: Seq<u8>,
    at: int,
    pairs: Seq<(Key, u64)>,
    acc: Seq<(Key, u64)>,
)
    requires
        0 <= at,
        at + pairs_bytes(pairs).len() <= PAGE_SIZE,
        page.len() == PAGE_SIZE,
        page.subrange(at, at + pairs_bytes(pairs).len()) == pairs_bytes(pairs),
        forall|i: int| 0 <= i < pairs.len() ==> key_storable((#[trigger] pairs[i]).0),
    ensures
        parse_pairs(page, at, pairs.len(), acc) == Ok::<(Seq<(Key, u64)>, int), Fault>(
            (acc + pairs, at + pairs_bytes(pairs).len()),
        ),
    decreases pairs.len(),
{
    if pairs.len() == 0 {
        assert(acc + pairs =~= acc);
    } else {
        let pair = pairs[0];
        let key = pair.0;
        let rest = pairs.drop_first();
        let all = pairs_bytes(pairs);
        let mid = at + 1 + key.len();
        let next = mid + 8;
        crate::bytes::lemma_be_bytes_len(pair.1 as nat, 8);
        assert(key_storable(pairs[0].0));
        assert(all == pair_slot(pair) + pairs_bytes(rest));
        assert(page.subrange(at, mid) =~= key_slot(key)) by {
            assert forall|i: int| 0 <= i < 1 + key.len() implies page[at + i] == key_slot(key)[i] by {
                assert(page[at + i] == page.subrange(at, at + all.len())[i]);
            }
        }
        lemma_parse_stored_key(page, at, key);
        assert(page.subrange(mid, mid + 8) =~= be_bytes(pair.1 as nat, 8)) by {
            assert forall|i: int| 0 <= i < 8 implies page[mid + i] == be_bytes(pair.1 as nat, 8)[i] by {
                assert(page[mid + i] == page.subrange(at, at + all.len())[1 + key.len() + i]);
            }
        }
        lemma_word_of_bytes(page, mid, pair.1 as nat);
        assert(page.subrange(next, next + pairs_bytes(rest).len()) =~= pairs_bytes(rest)) by {
            assert forall|i: int| 0 <= i < pairs_bytes(rest).len() implies page[next + i]
                == pairs_bytes(rest)[i] by {
                assert(page[next + i] == page.subrange(at, at + all.len())[9 + key.len() + i]);
            }
        }
        assert forall|i: int| 0 <= i < rest.len() implies key_storable((#[trigger] rest[i]).0) by {
            assert(rest[i] == pairs[i + 1]);
        }
        lemma_parse_stored_pairs(page, next, rest, acc.push(pair));
        assert(acc.push(pair) + rest =~= acc + pairs);
    }
}

proof fn lemma_parse_stored_children(
    page: Seq<u8>,
    at: int,
    children: Seq<usize>,
    acc: Seq<usize>,
)
    requires
        0 <= at,
        at + children_bytes(children).len() <= PAGE_SIZE,
        page.len() == PAGE_SIZE,
        page.subrange(at, at + children_bytes(children).len()) == children_bytes(children),
    ensures
        parse_children(page, at, children.len(), acc) == Ok::<(Seq<usize>, int), Fault>(
            (acc + children, at + children_bytes(children).len()),
        ),
        children_bytes(children).len() == 8 * children.len(),
    decreases children.len(),
{
    if children.len() == 0 {
        assert(acc + children =~= acc);
    } else {
        let child = children[0];
        let rest = children.drop_first();
        let all = children_bytes(children);
        let next = at + 8;
        crate::bytes::lemma_be_bytes_len(child as nat, 8);
        assert(all == be_bytes(child as nat, 8) + children_bytes(rest));
        assert(page.subrange(at, at + 8) =~= be_bytes(child as nat, 8)) by {
            assert forall|i: int| 0 <= i < 8 implies page[at + i] == be_bytes(child as nat, 8)[i] by {
                assert(page[at + i] == page.subrange(at, at + all.len())[i]);
            }
        }
        lemma_word_of_bytes(page, at, child as nat);
        assert(page.subrange(next, next + children_bytes(rest).len()) =~= children_bytes(rest)) by {
            assert forall|i: int| 0 <= i < children_bytes(rest).len() implies page[next + i]
                == children_bytes(rest)[i] by {
                assert(page[next + i] == page.subrange(at, at + all.len())[8 + i]);
            }
        }
        lemma_parse_stored_children(page, next, rest, acc.push(child));
        assert(acc.push(child) + rest =~= acc + children);
    }
}

/// Keys that can be stored without a fault end before the end of the page,
/// and are no more than the bytes they take.
pub proof fn lemma_keys_fit(keys: Seq<Key>, at: int)
    requires
        keys_fault(keys, at) is None,
        at < PAGE_SIZE,
    ensures
        at + keys_bytes(keys).len() < PAGE_SIZE,
        keys.len() <= keys_bytes(keys).len(),
    decreases keys.len(),
{
    if keys.len() > 0 {
        lemma_keys_fit(keys.drop_first(), at + keys[0].len() + 1);
    }
}

/// Pairs that can be stored without a fault end before the end of the page,
/// and are no more than the bytes they take.
pub proof fn lemma_pairs_fit(pairs: Seq<(Key, u64)>, at: int)
    requires
        pairs_fault(pairs, at) is None,
        at < PAGE_SIZE,
    ensures
        at + pairs_bytes(pairs).len() < PAGE_SIZE,
        pairs.len() <= pairs_bytes(pairs).len(),
    decreases pairs.len(),
{
    if pairs.len() > 0 {
        crate::bytes::lemma_be_bytes_len(pairs[0].1 as nat, 8);
        lemma_pairs_fit(pairs.drop_first(), at + pairs[0].0.len() + 1 + VALUE_SIZE);
    }
}

/// A node that is stored without a fault, and that `storable` admits, is
/// read back from its page as it was, and its entries end where header and
/// body end.
pub proof fn lemma_decode_encode(node: NodeView)
    requires
        storable(node),
        encode(node) is Ok,
    ensures
        decode(encode(node)->Ok_0) == Ok::<(NodeView, int), Fault>(
            (node, (header_bytes(node) + body_bytes(node)).len() as int),
        ),
        (header_bytes(node) + body_bytes(node)).len() < PAGE_SIZE,
{
    let page = layout(node);
    let header = header_bytes(node);
    let body = body_bytes(node);
    let parent_word = link_word(node.parent);
    crate::bytes::lemma_be_bytes_len(parent_word, 8);
    match node.kind {
        KindView::Internal { keys, children } => {
            crate::bytes::lemma_be_bytes_len(children.len(), 8);
            lemma_keys_fit(keys, INTERNAL_HEADER_SIZE as int);
            let mid = INTERNAL_HEADER_SIZE + keys_bytes(keys).len();
            lemma_children_bytes_len(children);
            assert(page.len() == PAGE_SIZE);
            assert(page.subrange(2, 10) =~= be_bytes(parent_word, 8));
            assert(page.subrange(10, 18) =~= be_bytes(children.len(), 8));
            lemma_word_of_bytes(page, 2, parent_word);
            lemma_word_of_bytes(page, 10, children.len());
            assert(page.subrange(18, mid as int) =~= keys_bytes(keys));
            lemma_parse_stored_keys(page, 18, keys, Seq::empty());
            assert(Seq::<Key>::empty() + keys =~= keys);
            assert(page.subrange(mid, mid + children_bytes(children).len()) =~= children_bytes(
                children,
            ));
            lemma_parse_stored_children(page, mid, children, Seq::empty());
            assert(Seq::<usize>::empty() + children =~= children);
            assert(page[0] == (node.parent is None).flag_byte());
            assert(page[1] == 0);
        },
        KindView::Leaf { next, previous, pairs } => {
            crate::bytes::lemma_be_bytes_len(link_word(next), 8);
            crate::bytes::lemma_be_bytes_len(link_word(previous), 8);
            crate::bytes::lemma_be_bytes_len(pairs.len(), 8);
            lemma_pairs_fit(pairs, LEAF_HEADER_SIZE as int);
            assert(page.len() == PAGE_SIZE);
            assert(page.subrange(2, 10) =~= be_bytes(parent_word, 8));
            assert(page.subrange(10, 18) =~= be_bytes(link_word(next), 8));
            assert(page.subrange(18, 26) =~= be_bytes(link_word(previous), 8));
            assert(page.subrange(26, 34) =~= be_bytes(pairs.len(), 8));
            lemma_word_of_bytes(page, 2, parent_word);
            lemma_word_of_bytes(page, 10, link_word(next));
            lemma_word_of_bytes(page, 18, link_word(previous));
            lemma_word_of_bytes(page, 26, pairs.len());
            assert(page.subrange(34, LEAF_HEADER_SIZE + pairs_bytes(pairs).len()) =~= pairs_bytes(pairs));
            lemma_parse_stored_pairs(page, 34, pairs, Seq::empty());
            assert(Seq::<(Key, u64)>::empty() + pairs =~= pairs);
            assert(page[0] == (node.parent is None).flag_byte());
            assert(page[1] == 1);
        },
    }
}

proof fn lemma_parsed_keys(page: Seq<u8>, at: int, n: nat, acc: Seq<Key>)
    requires
        parse_keys(page, at, n, acc) is Ok,
        page.len() == PAGE_SIZE,
        0 <= at <= PAGE_SIZE,
        forall|i: int| 0 <= i < acc.len() ==> key_storable(#[trigger] acc[i]),
    ensures
        parse_keys(page, at, n, acc)->Ok_0.0.len() == acc.len() + n,
        at + n <= parse_keys(page, at, n, acc)->Ok_0.1 <= PAGE_SIZE,
        forall|i: int|
            0 <= i < parse_keys(page, at, n, acc)->Ok_0.0.len() ==> key_storable(
                #[trigger] parse_keys(page, at, n, acc)->Ok_0.0[i],
            ),
    decreases n,
{
    if n > 0 {
        let (key, next) = parse_key(page, at)->Ok_0;
        let more = acc.push(key);
        assert(key.len() == page[at] as int);
        assert forall|i: int| 0 <= i < more.len() implies key_storable(#[trigger] more[i]) by {
            if i < acc.len() {
                assert(more[i] == acc[i]);
            } else {
                assert(more[i] == key);
            }
        }
        lemma_parsed_keys(page, next, (n - 1) as nat, more);
    }
}

proof fn lemma_parsed_pairs(page: Seq<u8>, at: int, n: nat, acc: Seq<(Key, u64)>)
    requires
        parse_pairs(page, at, n, acc) is Ok,
        page.len() == PAGE_SIZE,
        0 <= at <= PAGE_SIZE,
        forall|i: int| 0 <= i < acc.len() ==> key_storable((#[trigger] acc[i]).0),
    ensures
        parse_pairs(page, at, n, acc)->Ok_0.0.len() == acc.len() + n,
        at + n <= parse_pairs(page, at, n, acc)->Ok_0.1 <= PAGE_SIZE,
        forall|i: int|
            0 <= i < parse_pairs(page, at, n, acc)->Ok_0.0.len() ==> key_storable(
                (#[trigger] parse_pairs(page, at, n, acc)->Ok_0.0[i]).0,
            ),
    decreases n,
{
    if n > 0 {
        let (pair, next) = parse_pair(page, at)->Ok_0;
        let more = acc.push(pair);
        assert(parse_key(page, at) is Ok);
        assert(pair.0 == parse_key(page, at)->Ok_0.0);
        assert(pair.0.len() == page[at] as int);
        assert forall|i: int| 0 <= i < more.len() implies key_storable((#[trigger] more[i]).0) by {
            if i < acc.len() {
                assert(more[i] == acc[i]);
            } else {
                assert(more[i] == pair);
            }
        }
        lemma_parsed_pairs(page, next, (n - 1) as nat, more);
    }
}

proof fn lemma_parsed_children(page: Seq<u8>, at: int, n: nat, acc: Seq<usize>)
    requires
        parse_children(page, at, n, acc) is Ok,
        0 <= at <= PAGE_SIZE,
    ensures
        parse_children(page, at, n, acc)->Ok_0.0.len() == acc.len() + n,
        at + n <= parse_children(page, at, n, acc)->Ok_0.1 <= PAGE_SIZE,
    decreases n,
{
    if n > 0 {
        lemma_parsed_children(page, at + 8, (n - 1) as nat, acc.push(word_at(page, at) as usize));
    }
}

/// A node that is read from a page can be stored and read back as it is,
/// and its entries end within the page.
pub proof fn lemma_decode_storable(page: Seq<u8>)
    requires
        decode(page) is Ok,
        page.len() == PAGE_SIZE,
    ensures
        storable(decode(page)->Ok_0.0),
        0 <= decode(page)->Ok_0.1 <= PAGE_SIZE,
        match decode(page)->Ok_0.0.kind {
            KindView::Internal { keys, children } => keys.len() <= PAGE_SIZE && children.len()
                <= PAGE_SIZE,
            KindView::Leaf { next, previous, pairs } => pairs.len() <= PAGE_SIZE,
        },
{
    if page[NODE_KIND_OFFSET as int] == 0 {
        let count = word_at(page, INTERNAL_CHILD_COUNT_OFFSET as int);
        let key_count = if count == 0 {
            0
        } else {
            (count - 1) as nat
        };
        lemma_parsed_keys(page, INTERNAL_HEADER_SIZE as int, key_count, Seq::empty());
        let mid = parse_keys(page, INTERNAL_HEADER_SIZE as int, key_count, Seq::empty())->Ok_0.1;
        lemma_parsed_children(page, mid, count, Seq::empty());
    } else {
        lemma_parsed_pairs(
            page,
            LEAF_HEADER_SIZE as int,
            word_at(page, LEAF_KEY_COUNT_OFFSET as int),
            Seq::empty(),
        );
    }
}

/// The key of a string of between 1 and 255 bytes can be stored.
pub proof fn lemma_string_key_storable(s: Seq<char>)
    requires
        1 <= key_of(s).len() <= KEY_MAX_SIZE,
    ensures
        key_storable(key_of(s)),
{
    vstd::utf8::encode_utf8_valid_utf8(s);
}

/// The bytes that stored keys take: one for the length of each, and the
/// key.
pub open spec fn keys_space(keys: Seq<Key>) -> int
    decreases keys.len(),
{
    if keys.len() == 0 {
        0
    } else {
        keys_space(keys.drop_last()) + 1 + keys.last().len()
    }
}

/// The bytes that stored pairs take: one for the length of each key, the
/// key, and eight for the value.
pub open spec fn pairs_space(pairs: Seq<(Key, u64)>) -> int
    decreases pairs.len(),
{
    if pairs.len() == 0 {
        0
    } else {
        pairs_space(pairs.drop_last()) + 1 + pairs.last().0.len() + VALUE_SIZE
    }
}

/// The space that a node occupies: its header, its entries, and one byte
/// more.
pub open spec fn node_space(kind: KindView) -> int {
    match kind {
        KindView::Internal { keys, children } => INTERNAL_HEADER_SIZE + keys_space(keys)
            + PTR_SIZE * children.len() + 1,
        KindView::Leaf { next, previous, pairs } => LEAF_HEADER_SIZE + pairs_space(pairs) + 1,
    }
}

proof fn lemma_parsed_keys_space(page: Seq<u8>, at: int, n: nat, acc: Seq<Key>)
    requires
        parse_keys(page, at, n, acc) is Ok,
        page.len() == PAGE_SIZE,
        0 <= at <= PAGE_SIZE,
    ensures
        parse_keys(page, at, n, acc)->Ok_0.1 - at == keys_space(
            parse_keys(page, at, n, acc)->Ok_0.0,
        ) - keys_space(acc),
    decreases n,
{
    if n > 0 {
        let (key, next) = parse_key(page, at)->Ok_0;
        let more = acc.push(key);
        assert(key.len() == page[at] as int);
        assert(more.drop_last() =~= acc);
        lemma_parsed_keys_space(page, next, (n - 1) as nat, more);
    }
}

proof fn lemma_parsed_pairs_space(page: Seq<u8>, at: int, n: nat, acc: Seq<(Key, u64)>)
    requires
        parse_pairs(page, at, n, acc) is Ok,
        page.len() == PAGE_SIZE,
        0 <= at <= PAGE_SIZE,
    ensures
        parse_pairs(page, at, n, acc)->Ok_0.1 - at == pairs_space(
            parse_pairs(page, at, n, acc)->Ok_0.0,
        ) - pairs_space(acc),
    decreases n,
{
    if n > 0 {
        let (pair, next) = parse_pair(page, at)->Ok_0;
        let more = acc.push(pair);
        assert(parse_key(page, at) is Ok);
        assert(pair.0 == parse_key(page, at)->Ok_0.0);
        assert(pair.0.len() == page[at] as int);
        assert(more.drop_last() =~= acc);
        lemma_parsed_pairs_space(page, next, (n - 1) as nat, more);
    }
}

/// A node that is read from a page occupies the space that its entries
/// take: they end where the bytes of header and entries end.
pub proof fn lemma_decode_space(page: Seq<u8>)
    requires
        decode(page) is Ok,
        page.len() == PAGE_SIZE,
    ensures
        decode(page)->Ok_0.1 + 1 == node_space(decode(page)->Ok_0.0.kind),
{
    if page[NODE_KIND_OFFSET as int] == 0 {
        let count = word_at(page, INTERNAL_CHILD_COUNT_OFFSET as int);
        let key_count = if count == 0 {
            0
        } else {
            (count - 1) as nat
        };
        lemma_parsed_keys(page, INTERNAL_HEADER_SIZE as int, key_count, Seq::empty());
        lemma_parsed_keys_space(page, INTERNAL_HEADER_SIZE as int, key_count, Seq::empty());
        let mid = parse_keys(page, INTERNAL_HEADER_SIZE as int, key_count, Seq::empty())->Ok_0.1;
        lemma_parsed_children_space(page, mid, count, Seq::empty());
    } else {
        lemma_parsed_pairs_space(
            page,
            LEAF_HEADER_SIZE as int,
            word_at(page, LEAF_KEY_COUNT_OFFSET as int),
            Seq::empty(),
        );
    }
}

proof fn lemma_parsed_children_space(page: Seq<u8>, at: int, n: nat, acc: Seq<usize>)
    requires
        parse_children(page, at, n, acc) is Ok,
        0 <= at <= PAGE_SIZE,
    ensures
        parse_children(page, at, n, acc)->Ok_0.0.len() == acc.len() + n,
        parse_children(page, at, n, acc)->Ok_0.1 == at + 8 * n,
    decreases n,
{
    if n > 0 {
        lemma_parsed_children_space(
            page,
            at + 8,
            (n - 1) as nat,
            acc.push(word_at(page, at) as usize),
        );
    }
}

/// Pairs take no less space than any one of them.
pub proof fn lemma_pairs_space_at(pairs: Seq<(Key, u64)>, i: int)
    requires
        0 <= i < pairs.len(),
    ensures
        pairs_space(pairs) >= 1 + pairs[i].0.len() + VALUE_SIZE,
        pairs_space(pairs.remove(i)) == pairs_space(pairs) - (1 + pairs[i].0.len() + VALUE_SIZE),
    decreases pairs.len(),
{
    lemma_pairs_space_nonneg(pairs.drop_last());
    if i < pairs.len() - 1 {
        lemma_pairs_space_at(pairs.drop_last(), i);
        assert(pairs.remove(i).drop_last() =~= pairs.drop_last().remove(i));
        assert(pairs.remove(i).last() == pairs.last());
    } else {
        assert(pairs.remove(i) =~= pairs.drop_last());
    }
}

/// Stored pairs take no less than nothing.
pub proof fn lemma_pairs_space_nonneg(pairs: Seq<(Key, u64)>)
    ensures
        pairs_space(pairs) >= 0,
    decreases pairs.len(),
{
    if pairs.len() > 0 {
        lemma_pairs_space_nonneg(pairs.drop_last());
    }
}

/// Stored keys take no less than nothing.
pub proof fn lemma_keys_space_nonneg(keys: Seq<Key>)
    ensures
        keys_space(keys) >= 0,
    decreases keys.len(),
{
    if keys.len() > 0 {
        lemma_keys_space_nonneg(keys.drop_last());
    }
}

/// Keys take no less space than any one of them.
pub proof fn lemma_keys_space_at(keys: Seq<Key>, i: int)
    requires
        0 <= i < keys.len(),
    ensures
        keys_space(keys) >= 1 + keys[i].len(),
        keys_space(keys.remove(i)) == keys_space(keys) - (1 + keys[i].len()),
    decreases keys.len(),
{
    lemma_keys_space_nonneg(keys.drop_last());
    if i < keys.len() - 1 {
        lemma_keys_space_at(keys.drop_last(), i);
        assert(keys.remove(i).drop_last() =~= keys.drop_last().remove(i));
        assert(keys.remove(i).last() == keys.last());
    } else {
        assert(keys.remove(i) =~= keys.drop_last());
    }
}

/// Keys of at most 255 bytes each that end before the end of the page are
/// stored without a fault.
pub proof fn lemma_keys_no_fault(keys: Seq<Key>, at: int)
    requires
        forall|i: int| 0 <= i < keys.len() ==> (#[trigger] keys[i]).len() <= KEY_MAX_SIZE,
        at + keys_space(keys) < PAGE_SIZE,
    ensures
        keys_fault(keys, at) is None,
        keys_bytes(keys).len() == keys_space(keys),
    decreases keys.len(),
{
    if keys.len() > 0 {
        lemma_keys_space_at(keys, 0);
        assert(keys.remove(0) =~= keys.drop_first());
        lemma_keys_no_fault(keys.drop_first(), at + keys[0].len() + 1);
    }
}

/// Pairs with keys of at most 255 bytes each that end before the end of the
/// page are stored without a fault.
pub proof fn lemma_pairs_no_fault(pairs: Seq<(Key, u64)>, at: int)
    requires
        forall|i: int| 0 <= i < pairs.len() ==> (#[trigger] pairs[i]).0.len() <= KEY_MAX_SIZE,
        at + pairs_space(pairs) < PAGE_SIZE,
    ensures
        pairs_fault(pairs, at) is None,
    decreases pairs.len(),
{
    if pairs.len() > 0 {
        lemma_pairs_space_at(pairs, 0);
        assert(pairs.remove(0) =~= pairs.drop_first());
        lemma_pairs_no_fault(pairs.drop_first(), at + pairs[0].0.len() + 1 + VALUE_SIZE);
    }
}

/// The only fault met when storing keys of at most 255 bytes each is that
/// they reach the end of the page.
pub proof fn lemma_keys_fault_range(keys: Seq<Key>, at: int)
    requires
        forall|i: int| 0 <= i < keys.len() ==> (#[trigger] keys[i]).len() <= KEY_MAX_SIZE,
    ensures
        keys_fault(keys, at) is None || keys_fault(keys, at) == Some(Fault::Range),
    decreases keys.len(),
{
    if keys.len() > 0 {
        assert forall|i: int| 0 <= i < keys.drop_first().len() implies (#[trigger] keys.drop_first()[i]).len()
            <= KEY_MAX_SIZE by {
            assert(keys.drop_first()[i] == keys[i + 1]);
        }
        lemma_keys_fault_range(keys.drop_first(), at + keys[0].len() + 1);
    }
}

/// The only fault met when storing pairs with keys of at most 255 bytes
/// each is that they reach the end of the page.
pub proof fn lemma_pairs_fault_range(pairs: Seq<(Key, u64)>, at: int)
    requires
        forall|i: int| 0 <= i < pairs.len() ==> (#[trigger] pairs[i]).0.len() <= KEY_MAX_SIZE,
    ensures
        pairs_fault(pairs, at) is None || pairs_fault(pairs, at) == Some(Fault::Range),
    decreases pairs.len(),
{
    if pairs.len() > 0 {
        assert forall|i: int| 0 <= i < pairs.drop_first().len() implies (#[trigger] pairs.drop_first()[i]).0.len()
            <= KEY_MAX_SIZE by {
            assert(pairs.drop_first()[i] == pairs[i + 1]);
        }
        lemma_pairs_fault_range(pairs.drop_first(), at + pairs[0].0.len() + 1 + VALUE_SIZE);
    }
}

/// A node whose keys can be stored is stored unless it reaches the end of
/// the page.
pub proof fn lemma_storable_fault(node: NodeView)
    requires
        storable(node),
    ensures
        encode(node) is Ok || encode(node) == Err::<Seq<u8>, Fault>(Fault::Range),
{
    match node.kind {
        KindView::Internal { keys, children } => {
            lemma_keys_fault_range(keys, INTERNAL_HEADER_SIZE as int);
        },
        KindView::Leaf { next, previous, pairs } => {
            lemma_pairs_fault_range(pairs, LEAF_HEADER_SIZE as int);
        },
    }
}

/// A node whose keys can be stored, and which occupies no more than a page,
/// is stored without a fault.
pub proof fn lemma_encode_fits(node: NodeView)
    requires
        storable(node),
        node_space(node.kind) <= PAGE_SIZE,
    ensures
        encode(node) is Ok,
{
    match node.kind {
        KindView::Internal { keys, children } => {
            lemma_keys_space_nonneg(keys);
            lemma_keys_no_fault(keys, INTERNAL_HEADER_SIZE as int);
        },
        KindView::Leaf { next, previous, pairs } => {
            lemma_pairs_no_fault(pairs, LEAF_HEADER_SIZE as int);
        },
    }
}

} // verus!
