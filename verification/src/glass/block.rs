//! B-tree blocks: the header, the directory, and the items that it points to.
//!
//! A block starts with an 11-byte header: revision (4 bytes), level (1), largest free
//! run (2), total free space (2) and the end of the directory (2). The directory follows:
//! one 2-byte offset per item, in key order. All integers are big-endian.

use crate::bytes;
use crate::bytes::{compare_bytes, read_be16, read_be32};
use vstd::prelude::*;

verus! {

/// The offset at which a block's directory starts.
pub const DIR_START: usize = 11;

/// The level that marks a freelist block.
pub const LEVEL_FREELIST: u8 = 254;

/// A borrowed B-tree block.
#[derive(Clone, Copy)]
pub struct Block<'a> {
    pub data: &'a [u8],
}

/// The end of the directory of a block.
pub open spec fn dir_end(d: Seq<u8>) -> int {
    bytes::be16(d, 9)
}

impl<'a> Block<'a> {
    /// The revision at which the block was written.
    pub fn revision(&self) -> (r: u32)
        requires
            self.data@.len() >= 4,
        ensures
            r == bytes::be32(self.data@, 0),
    {
        read_be32(self.data, 0)
    }

    /// The level of the block, counted from the leaves.
    pub fn level(&self) -> (r: u8)
        requires
            self.data@.len() >= 5,
        ensures
            r == self.data@[4],
    {
        self.data[4]
    }

    /// The size of the largest free run.
    pub fn max_free(&self) -> (r: usize)
        requires
            self.data@.len() >= 7,
        ensures
            r == bytes::be16(self.data@, 5),
    {
        read_be16(self.data, 5) as usize
    }

    /// The total free space.
    pub fn total_free(&self) -> (r: usize)
        requires
            self.data@.len() >= 9,
        ensures
            r == bytes::be16(self.data@, 7),
    {
        read_be16(self.data, 7) as usize
    }

    /// The end of the directory.
    pub fn dir_end(&self) -> (r: usize)
        requires
            self.data@.len() >= 11,
        ensures
            r == dir_end(self.data@),
    {
        read_be16(self.data, 9) as usize
    }

    /// Number of directory entries (each entry is a 2-byte big-endian offset).
    pub fn dir_count(&self) -> (r: usize)
        requires
            self.data@.len() >= 11,
            dir_end(self.data@) >= DIR_START,
        ensures
            r == (dir_end(self.data@) - DIR_START) / 2,
    {
        (self.dir_end() - DIR_START) / 2
    }

    /// Whether the block belongs to the freelist.
    pub fn is_freelist(&self) -> (r: bool)
        requires
            self.data@.len() >= 5,
        ensures
            r == (self.data@[4] == LEVEL_FREELIST),
    {
        self.level() == LEVEL_FREELIST
    }
}

/// A leaf item: one chunk of the tag that is stored under a key. `component` numbers the
/// chunks of a tag from one.
pub struct Leaf {
    pub key: Seq<u8>,
    pub component: int,
    pub compressed: bool,
    pub first: bool,
    pub last: bool,
    pub chunk: Seq<u8>,
}

/// A parsed leaf item (key, this chunk's tag bytes, flags).
#[derive(Clone, Copy)]
pub struct LeafItemView<'a> {
    pub key: &'a [u8],
    pub component_of: i32,
    pub compressed: bool,
    pub first: bool,
    pub last: bool,
    pub chunk: &'a [u8],
}

impl<'a> View for LeafItemView<'a> {
    type V = Leaf;

    open spec fn view(&self) -> Leaf {
        Leaf {
            key: self.key@,
            component: self.component_of as int,
            compressed: self.compressed,
            first: self.first,
            last: self.last,
            chunk: self.chunk@,
        }
    }
}

/// The leaf item that the directory slot at offset `c` points to, or `None` where the
/// slot or the item does not lie inside the block.
///
/// The item starts with two bytes that hold three flags (compressed, last chunk, first
/// chunk) above 13 bits of size; the item extends three bytes further than that size.
/// The key follows behind its one-byte length. An item that is not a first chunk then
/// has its number in two bytes. The rest is the chunk.
pub open spec fn leaf_at(d: Seq<u8>, c: int) -> Option<Leaf> {
    if c < 0 || c + 2 > d.len() {
        None
    } else {
        let off = bytes::be16(d, c);
        if off + 3 > d.len() {
            None
        } else {
            let flags = d[off] / 32;
            let size = bytes::be16(d, off) % 8192 + 3;
            let key_end = off + 3 + d[off + 2];
            let first = flags % 2 == 1;
            let start = if first {
                key_end
            } else {
                key_end + 2
            };
            if start > d.len() || off + size > d.len() || start > off + size {
                None
            } else {
                Some(
                    Leaf {
                        key: d.subrange(off + 3, key_end),
                        component: if first {
                            1
                        } else {
                            bytes::be16(d, key_end)
                        },
                        compressed: flags / 4 == 1,
                        first,
                        last: (flags / 2) % 2 == 1,
                        chunk: d.subrange(start, off + size),
                    },
                )
            }
        }
    }
}

/// The key and chunk number of the branch item that the directory slot at offset `c`
/// points to: a 4-byte block number, the key behind its one-byte length, then the
/// chunk number in two bytes.
pub open spec fn branch_at(d: Seq<u8>, c: int) -> Option<(Seq<u8>, int)> {
    if c < 0 || c + 2 > d.len() {
        None
    } else {
        let off = bytes::be16(d, c);
        if off + 5 > d.len() {
            None
        } else {
            let key_end = off + 5 + d[off + 4];
            if key_end + 2 > d.len() {
                None
            } else {
                Some((d.subrange(off + 5, key_end), bytes::be16(d, key_end)))
            }
        }
    }
}

/// The child block of the branch item that the directory slot at offset `c` points to.
pub open spec fn child_at(d: Seq<u8>, c: int) -> Option<u64> {
    if c < 0 || c + 2 > d.len() {
        None
    } else {
        let off = bytes::be16(d, c);
        if off + 4 > d.len() {
            None
        } else {
            Some(bytes::be32(d, off) as u64)
        }
    }
}

/// How a search for the first chunk under `search` compares with an item: by key, then
/// by chunk number. Negative where the search comes first.
pub open spec fn key_order(search: Seq<u8>, key: Seq<u8>, component: int) -> int {
    if bytes::lex_lt(search, key) {
        -1
    } else if bytes::lex_lt(key, search) {
        1
    } else {
        1 - component
    }
}

/// How a search compares with the item of the directory slot at offset `c`.
pub open spec fn order_at(d: Seq<u8>, search: Seq<u8>, c: int, in_leaf: bool) -> Option<int> {
    if in_leaf {
        match leaf_at(d, c) {
            Some(item) => Some(key_order(search, item.key, item.component)),
            None => None,
        }
    } else {
        match branch_at(d, c) {
            Some((key, component)) => Some(key_order(search, key, component)),
            None => None,
        }
    }
}

/// Binary chop over the directory slots from `i` up to, not including, `j`: the slot on
/// which it ends and whether that slot's item compares as equal. The search comes at or
/// behind slot `i` (which is not looked at unless the slots run out) and before `j`.
/// `None` where an item that is looked at does not lie inside the block, or where the
/// chop cannot make progress because the directory does not hold whole slots.
pub open spec fn chop(d: Seq<u8>, search: Seq<u8>, i: int, j: int, in_leaf: bool) -> Option<
    (int, bool),
>
    decreases j - i,
{
    if j - i <= 2 {
        Some((i, false))
    } else {
        let mid = i + ((j - i) / 4) * 2;
        match order_at(d, search, mid, in_leaf) {
            None => None,
            Some(r) => if r < 0 {
                chop(d, search, i, mid, in_leaf)
            } else if r == 0 {
                Some((mid, true))
            } else if mid == i {
                None
            } else {
                chop(d, search, mid, j, in_leaf)
            },
        }
    }
}

/// Read the leaf item of the directory slot at offset `c`.
pub fn leaf_item<'a>(block: &Block<'a>, c: usize) -> (r: Option<LeafItemView<'a>>)
    ensures
        match leaf_at(block.data@, c as int) {
            Some(item) => r matches Some(view) && view@ == item,
            None => r is None,
        },
{
    let d: &'a [u8] = block.data;
    if d.len() < 2 || c > d.len() - 2 {
        return None;
    }
    let off: usize = read_be16(d, c) as usize;
    if d.len() < 3 || off > d.len() - 3 {
        return None;
    }
    let flags: u8 = d[off] / 32;
    let size: usize = read_be16(d, off) as usize % 8192 + 3;
    let key_len: usize = d[off + 2] as usize;
    let first: bool = flags % 2 == 1;
    let head: usize = if first {
        3 + key_len
    } else {
        5 + key_len
    };
    if head > d.len() - off || size > d.len() - off || head > size {
        return None;
    }
    let key_end: usize = off + 3 + key_len;
    let component_of: i32 = if first {
        1
    } else {
        read_be16(d, key_end) as i32
    };
    Some(
        LeafItemView {
            key: &d[off + 3..key_end],
            component_of,
            compressed: flags / 4 == 1,
            first,
            last: (flags / 2) % 2 == 1,
            chunk: &d[off + head..off + size],
        },
    )
}

/// Read the key and chunk number of the branch item of the directory slot at offset `c`.
pub fn bitem_key<'a>(block: &Block<'a>, c: usize) -> (r: Option<(&'a [u8], i32)>)
    ensures
        match branch_at(block.data@, c as int) {
            Some((key, component)) => r matches Some((k, n)) && k@ == key && n == component,
            None => r is None,
        },
{
    let d: &'a [u8] = block.data;
    if d.len() < 2 || c > d.len() - 2 {
        return None;
    }
    let off: usize = read_be16(d, c) as usize;
    if d.len() < 5 || off > d.len() - 5 {
        return None;
    }
    let key_len: usize = d[off + 4] as usize;
    if 7 + key_len > d.len() - off {
        return None;
    }
    let key_end: usize = off + 5 + key_len;
    Some((&d[off + 5..key_end], read_be16(d, key_end) as i32))
}

/// Read the child block of the branch item of the directory slot at offset `c`.
pub fn bitem_block_given_by(block: &Block, c: usize) -> (r: Option<u64>)
    ensures
        r == child_at(block.data@, c as int),
{
    let d: &[u8] = block.data;
    if d.len() < 2 || c > d.len() - 2 {
        return None;
    }
    let off: usize = read_be16(d, c) as usize;
    if d.len() < 4 || off > d.len() - 4 {
        return None;
    }
    Some(read_be32(d, off) as u64)
}

/// Compare a search for the first chunk under `search` with an item: byte order, then
/// length, then chunk number.
fn compare_key(search: &[u8], item_key: &[u8], item_component: i32) -> (r: i32)
    requires
        1 - item_component <= i32::MAX,
    ensures
        r < 0 <==> key_order(search@, item_key@, item_component as int) < 0,
        r == 0 <==> key_order(search@, item_key@, item_component as int) == 0,
{
    proof {
        bytes::law_lex_irreflexive(search@);
    }
    let r: i32 = compare_bytes(search, item_key);
    if r != 0 {
        r
    } else {
        1 - item_component
    }
}

fn chop_block(block: &Block, key: &[u8], low: i32, in_leaf: bool) -> (r: Option<(i32, bool)>)
    requires
        block.data@.len() >= 11,
        9 <= low <= 11,
    ensures
        match chop(block.data@, key@, low as int, dir_end(block.data@), in_leaf) {
            Some((c, exact)) => r == Some((c as i32, exact)) && low <= c && (c == low || c < dir_end(
                block.data@,
            )),
            None => r is None,
        },
{
    let mut i: i32 = low;
    let mut j: i32 = block.dir_end() as i32;
    while j - i > 2
        invariant
            9 <= low <= i <= 0x1_0000,
            0 <= j <= dir_end(block.data@) <= 0xffff,
            i == low || i < dir_end(block.data@),
            chop(block.data@, key@, low as int, dir_end(block.data@), in_leaf) == chop(
                block.data@,
                key@,
                i as int,
                j as int,
                in_leaf,
            ),
        decreases j - i,
    {
        let mid: i32 = i + ((j - i) / 4) * 2;
        let r: i32 = if in_leaf {
            match leaf_item(block, mid as usize) {
                Some(item) => compare_key(key, item.key, item.component_of),
                None => return None,
            }
        } else {
            match bitem_key(block, mid as usize) {
                Some((k, n)) => compare_key(key, k, n),
                None => return None,
            }
        };
        if r < 0 {
            j = mid;
        } else {
            if r == 0 {
                return Some((mid, true));
            }
            if mid == i {
                return None;
            }
            i = mid;
        }
    }
    Some((i, false))
}

/// The directory slot of the last branch key at or before the search key.
pub fn find_in_branch(block: &Block, key: &[u8]) -> (r: Option<i32>)
    requires
        block.data@.len() >= 11,
    ensures
        match chop(block.data@, key@, 11, dir_end(block.data@), false) {
            Some((c, _)) => r == Some(c as i32) && 11 <= c <= 0xffff,
            None => r is None,
        },
{
    match chop_block(block, key, 11, false) {
        Some((c, _)) => Some(c),
        None => None,
    }
}

/// The directory slot of the last leaf key at or before the search key, and whether it
/// is the search key. The slot before the first stands for "before every key".
pub fn find_in_leaf(block: &Block, key: &[u8]) -> (r: Option<(i32, bool)>)
    requires
        block.data@.len() >= 11,
    ensures
        match chop(block.data@, key@, 9, dir_end(block.data@), true) {
            Some((c, exact)) => r == Some((c as i32, exact)) && 9 <= c <= 0xffff,
            None => r is None,
        },
{
    chop_block(block, key, 9, true)
}

} // verus!
