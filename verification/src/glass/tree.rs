//! What a well-formed table stores, and that searching and walking it find exactly that.
//!
//! A table is well-formed where every block lies inside the file, every directory holds
//! whole slots whose items lie inside their block, the leaf items stand in strictly
//! ascending order, and every key in a branch block separates the items on its two sides.

use crate::bytes;
use crate::glass::block;
use crate::glass::block::{Leaf, DIR_START};
use crate::glass::entries;
use crate::glass::table;
use crate::glass::table::{Run, Slot, TableSpec};
use vstd::prelude::*;

verus! {

/// The order of items: by key, then by chunk number.
pub open spec fn precedes(ka: Seq<u8>, ca: int, kb: Seq<u8>, cb: int) -> bool {
    bytes::lex_lt(ka, kb) || (ka == kb && ca < cb)
}

/// Leaf items in strictly ascending order.
pub open spec fn sorted(items: Seq<Leaf>) -> bool {
    forall|i: int, j: int|
        0 <= i < j < items.len() ==> precedes(
            (#[trigger] items[i]).key,
            items[i].component,
            (#[trigger] items[j]).key,
            items[j].component,
        )
}

/// The offset of directory slot `i`.
pub open spec fn slot_at(i: int) -> int {
    11 + 2 * i
}

/// The number of directory slots of a block.
pub open spec fn slot_count(d: Seq<u8>) -> int {
    (block::dir_end(d) - 11) / 2
}

/// The number of directory slots of block `n`.
pub open spec fn count(t: TableSpec, n: u64) -> int {
    slot_count(table::block_at(t, n).unwrap())
}

/// The leaf item of slot `i` of block `n`.
pub open spec fn leaf_of(t: TableSpec, n: u64, i: int) -> Leaf {
    block::leaf_at(table::block_at(t, n).unwrap(), slot_at(i)).unwrap()
}

/// The child block of slot `i` of block `n`.
pub open spec fn child_of(t: TableSpec, n: u64, i: int) -> u64 {
    block::child_at(table::block_at(t, n).unwrap(), slot_at(i)).unwrap()
}

/// The key and chunk number of slot `i` of branch block `n`.
pub open spec fn separator_of(t: TableSpec, n: u64, i: int) -> (Seq<u8>, int) {
    block::branch_at(table::block_at(t, n).unwrap(), slot_at(i)).unwrap()
}

/// The leaf items under the first `k` slots of block `n` at level `j`, in order.
pub open spec fn items_upto(t: TableSpec, n: u64, j: nat, k: int) -> Seq<Leaf>
    decreases j, k,
{
    if k <= 0 {
        Seq::empty()
    } else if j == 0 {
        items_upto(t, n, j, k - 1).push(leaf_of(t, n, k - 1))
    } else {
        let child = child_of(t, n, k - 1);
        items_upto(t, n, j, k - 1) + items_upto(t, child, (j - 1) as nat, count(t, child))
    }
}

/// The leaf items under block `n` at level `j`, in order.
pub open spec fn items_under(t: TableSpec, n: u64, j: nat) -> Seq<Leaf> {
    items_upto(t, n, j, count(t, n))
}

/// The separator of slot `i` of branch block `n` stands behind every item under the slots
/// before it, and at or before every item under its own and later slots.
pub open spec fn separates(t: TableSpec, n: u64, j: nat, i: int) -> bool {
    let left = items_upto(t, n, j, i);
    let all = items_under(t, n, j);
    let (key, component) = separator_of(t, n, i);
    &&& forall|x: int|
        0 <= x < left.len() ==> precedes(
            (#[trigger] all[x]).key,
            all[x].component,
            key,
            component,
        )
    &&& forall|x: int|
        left.len() <= x < all.len() ==> !precedes(
            (#[trigger] all[x]).key,
            all[x].component,
            key,
            component,
        )
}

/// The blocks under block `n` at level `j` lie inside the file, their directories hold at
/// least one slot and only whole ones, the items that the slots point to lie inside their
/// block, and the keys of the branch blocks separate their children. The key of a branch
/// block's first slot is not used.
pub open spec fn tree_ok(t: TableSpec, n: u64, j: nat) -> bool
    decreases j,
{
    &&& table::block_at(t, n) matches Some(d) && {
        &&& d.len() >= DIR_START
        &&& block::dir_end(d) >= 13
        &&& block::dir_end(d) % 2 == 1
        &&& j == 0 ==> forall|i: int|
            0 <= i < slot_count(d) ==> block::leaf_at(d, #[trigger] slot_at(i)) is Some
        &&& j > 0 ==> forall|i: int|
            0 <= i < slot_count(d) ==> block::child_at(d, #[trigger] slot_at(i)) is Some && tree_ok(
                t,
                child_of(t, n, i),
                (j - 1) as nat,
            )
        &&& j > 0 ==> forall|i: int|
            1 <= i < slot_count(d) ==> block::branch_at(d, #[trigger] slot_at(i)) is Some
                && separates(t, n, j, i)
    }
}

/// The leaf items that a table stores, in order.
pub open spec fn items_of(t: TableSpec) -> Seq<Leaf> {
    items_under(t, t.root, t.level)
}

/// The table is well-formed.
pub open spec fn table_ok(t: TableSpec) -> bool {
    tree_ok(t, t.root, t.level) && sorted(items_of(t))
}

/// The run that starts at item `i` of a table with the given items.
pub open spec fn run_at(items: Seq<Leaf>, i: int) -> Run {
    Run { items: items.skip(i).map_values(|x: Leaf| Some(x)), stop: None }
}

// Order.

/// An item does not precede itself.
pub proof fn law_order_irreflexive(k: Seq<u8>, c: int)
    ensures
        !precedes(k, c, k, c),
{
    bytes::law_lex_irreflexive(k);
}

/// The order of items is transitive.
pub proof fn law_order_transitive(
    ka: Seq<u8>,
    ca: int,
    kb: Seq<u8>,
    cb: int,
    kc: Seq<u8>,
    cc: int,
)
    requires
        precedes(ka, ca, kb, cb),
        precedes(kb, cb, kc, cc),
    ensures
        precedes(ka, ca, kc, cc),
{
    if bytes::lex_lt(ka, kb) && bytes::lex_lt(kb, kc) {
        bytes::law_lex_transitive(ka, kb, kc);
    }
}

/// Of two items one precedes the other, unless key and chunk number are equal.
pub proof fn law_order_total(ka: Seq<u8>, ca: int, kb: Seq<u8>, cb: int)
    ensures
        precedes(ka, ca, kb, cb) || precedes(kb, cb, ka, ca) || (ka == kb && ca == cb),
        !(precedes(ka, ca, kb, cb) && precedes(kb, cb, ka, ca)),
{
    bytes::law_lex_total(ka, kb);
    bytes::law_lex_irreflexive(ka);
}

/// A search compares with an item as the first chunk under the searched key does.
pub proof fn lemma_key_order(search: Seq<u8>, key: Seq<u8>, component: int)
    ensures
        block::key_order(search, key, component) < 0 <==> precedes(search, 1, key, component),
        block::key_order(search, key, component) == 0 <==> (search == key && component == 1),
        block::key_order(search, key, component) > 0 <==> precedes(key, component, search, 1),
{
    bytes::law_lex_total(search, key);
    bytes::law_lex_irreflexive(search);
}

// Structure.

proof fn lemma_upto_leaf(t: TableSpec, n: u64, k: int)
    requires
        0 <= k,
    ensures
        items_upto(t, n, 0, k).len() == k,
        forall|i: int| 0 <= i < k ==> (#[trigger] items_upto(t, n, 0, k)[i]) == leaf_of(t, n, i),
    decreases k,
{
    if k > 0 {
        lemma_upto_leaf(t, n, k - 1);
    }
}

/// The items under fewer slots come first.
proof fn lemma_upto_prefix(t: TableSpec, n: u64, j: nat, k: int, m: int)
    requires
        k <= m,
    ensures
        items_upto(t, n, j, k).len() <= items_upto(t, n, j, m).len(),
        forall|i: int|
            0 <= i < items_upto(t, n, j, k).len() ==> (#[trigger] items_upto(t, n, j, m)[i])
                == items_upto(t, n, j, k)[i],
    decreases m - k,
{
    if k < m {
        lemma_upto_prefix(t, n, j, k, m - 1);
    }
}

proof fn lemma_under_nonempty(t: TableSpec, n: u64, j: nat)
    requires
        tree_ok(t, n, j),
    ensures
        items_under(t, n, j).len() > 0,
    decreases j,
{
    if j == 0 {
        lemma_upto_leaf(t, n, count(t, n));
    } else {
        assert(slot_at(0) == 11);
        lemma_under_nonempty(t, child_of(t, n, 0), (j - 1) as nat);
        lemma_upto_prefix(t, n, j, 1, count(t, n));
    }
}

/// Each slot of a branch block has at least one item under it.
proof fn lemma_slot_nonempty(t: TableSpec, n: u64, j: nat, i: int)
    requires
        tree_ok(t, n, j),
        j > 0,
        0 <= i < count(t, n),
    ensures
        items_upto(t, n, j, i).len() < items_upto(t, n, j, i + 1).len(),
        items_upto(t, n, j, i + 1).len() <= items_under(t, n, j).len(),
        items_upto(t, n, j, i + 1) == items_upto(t, n, j, i) + items_under(
            t,
            child_of(t, n, i),
            (j - 1) as nat,
        ),
{
    assert(slot_at(i) == 11 + 2 * i);
    lemma_under_nonempty(t, child_of(t, n, i), (j - 1) as nat);
    lemma_upto_prefix(t, n, j, i + 1, count(t, n));
}

/// The first chunk of a tag has number one.
pub proof fn lemma_first_chunks_numbered(t: TableSpec, n: u64, j: nat)
    requires
        tree_ok(t, n, j),
    ensures
        forall|x: int|
            0 <= x < items_under(t, n, j).len() && (#[trigger] items_under(t, n, j)[x]).first
                ==> items_under(t, n, j)[x].component == 1,
    decreases j, 1nat, 0int,
{
    lemma_first_chunks_upto(t, n, j, count(t, n));
}

proof fn lemma_first_chunks_upto(t: TableSpec, n: u64, j: nat, k: int)
    requires
        tree_ok(t, n, j),
        k <= count(t, n),
    ensures
        forall|x: int|
            0 <= x < items_upto(t, n, j, k).len() && (#[trigger] items_upto(t, n, j, k)[x]).first
                ==> items_upto(t, n, j, k)[x].component == 1,
    decreases j, 0nat, k,
{
    if k > 0 {
        lemma_first_chunks_upto(t, n, j, k - 1);
        assert(slot_at(k - 1) == 11 + 2 * (k - 1));
        if j == 0 {
            lemma_upto_leaf(t, n, k);
            assert forall|x: int|
                0 <= x < items_upto(t, n, j, k).len() && (#[trigger] items_upto(t, n, j, k)[x]).first
                implies items_upto(t, n, j, k)[x].component == 1 by {
                assert(items_upto(t, n, j, k)[x] == leaf_of(t, n, x));
                assert(block::leaf_at(table::block_at(t, n).unwrap(), slot_at(x)) is Some);
            }
        } else {
            let child = child_of(t, n, k - 1);
            let left = items_upto(t, n, j, k - 1);
            let sub = items_under(t, child, (j - 1) as nat);
            lemma_first_chunks_numbered(t, child, (j - 1) as nat);
            assert forall|x: int|
                0 <= x < items_upto(t, n, j, k).len() && (#[trigger] items_upto(t, n, j, k)[x]).first
                implies items_upto(t, n, j, k)[x].component == 1 by {
                assert(items_upto(t, n, j, k) == left + sub);
                if x >= left.len() {
                    assert(items_upto(t, n, j, k)[x] == sub[x - left.len()]);
                } else {
                    assert(items_upto(t, n, j, k)[x] == left[x]);
                }
            }
        }
    }
}

// Searching one block.

/// How a search compares with the item of directory slot `i`.
#[verifier::opaque]
spec fn order_of(d: Seq<u8>, search: Seq<u8>, i: int, in_leaf: bool) -> Option<int> {
    block::order_at(d, search, slot_at(i), in_leaf)
}

/// The slots from `p` up to, not including, `q` are readable, and the search stands
/// strictly behind every slot before one that it stands at or behind.
spec fn choppable(d: Seq<u8>, search: Seq<u8>, p: int, q: int, in_leaf: bool) -> bool {
    &&& forall|x: int| p <= x < q ==> (#[trigger] order_of(d, search, x, in_leaf)) is Some
    &&& forall|x: int, y: int|
        p <= x < y < q && (#[trigger] order_of(d, search, y, in_leaf)).unwrap() >= 0 ==> (
        #[trigger] order_of(d, search, x, in_leaf)).unwrap() > 0
}

/// Slot `c` is the last, from `p` up to `q`, that the search stands at or behind, and
/// `exact` tells whether it stands at it. Slot `p - 1` stands for "before all of them".
spec fn chopped(
    d: Seq<u8>,
    search: Seq<u8>,
    p: int,
    q: int,
    in_leaf: bool,
    c: int,
    exact: bool,
) -> bool {
    &&& p - 1 <= c < q
    &&& forall|x: int|
        p <= x <= c ==> (#[trigger] order_of(d, search, x, in_leaf)).unwrap() >= 0
    &&& forall|x: int| c < x < q ==> (#[trigger] order_of(d, search, x, in_leaf)).unwrap() < 0
    &&& exact == (p <= c && order_of(d, search, c, in_leaf).unwrap() == 0)
}

/// The chop ends on the last slot that the search stands at or behind.
proof fn lemma_chop(d: Seq<u8>, search: Seq<u8>, p: int, q: int, in_leaf: bool)
    requires
        p <= q,
        choppable(d, search, p, q, in_leaf),
    ensures
        block::chop(d, search, slot_at(p - 1), slot_at(q), in_leaf) matches Some((c, exact))
            && chopped(d, search, p, q, in_leaf, (c - 11) / 2, exact) && c == slot_at((c - 11) / 2),
    decreases q - p,
{
    if q > p {
        let mid = p - 1 + (q - p + 1) / 2;
        assert(p <= mid < q);
        assert(slot_at(mid) == slot_at(p - 1) + ((slot_at(q) - slot_at(p - 1)) / 4) * 2);
        assert(order_of(d, search, mid, in_leaf) == block::order_at(
            d,
            search,
            slot_at(mid),
            in_leaf,
        )) by {
            reveal(order_of);
        }
        let r = order_of(d, search, mid, in_leaf).unwrap();
        if r < 0 {
            lemma_chop(d, search, p, mid, in_leaf);
        } else if r == 0 {
            assert((slot_at(mid) - 11) / 2 == mid);
        } else {
            lemma_chop(d, search, mid + 1, q, in_leaf);
        }
    }
}

// Searching the tree.

/// The directory slot of a level of a position.
pub open spec fn index_of(s: Slot) -> int {
    (s.c - 11) / 2
}

/// `pos` leads from block `n` at level `j` down to a leaf slot. The leaf slot may be the
/// one before the first.
pub open spec fn placed(t: TableSpec, pos: Seq<Slot>, n: u64, j: nat) -> bool
    decreases j,
{
    let i = index_of(pos[j as int]);
    &&& pos.len() > j
    &&& pos[j as int].n == n
    &&& pos[j as int].c == slot_at(i)
    &&& i < count(t, n)
    &&& if j == 0 {
        -1 <= i
    } else {
        0 <= i && placed(t, pos, child_of(t, n, i), (j - 1) as nat)
    }
}

/// The number of the item that `pos` stands at, counted among the items under its block
/// at level `j`.
pub open spec fn rank(t: TableSpec, pos: Seq<Slot>, j: nat) -> int
    decreases j,
{
    let i = index_of(pos[j as int]);
    if j == 0 {
        i
    } else {
        items_upto(t, pos[j as int].n, j, i).len() + rank(t, pos, (j - 1) as nat)
    }
}

proof fn lemma_placed_agree(t: TableSpec, pos: Seq<Slot>, other: Seq<Slot>, n: u64, j: nat)
    requires
        placed(t, pos, n, j),
        other.len() > j,
        forall|k: int| 0 <= k <= j ==> pos[k] == other[k],
    ensures
        placed(t, other, n, j),
        rank(t, other, j) == rank(t, pos, j),
    decreases j,
{
    assert(pos[j as int] == other[j as int]);
    if j > 0 {
        lemma_placed_agree(
            t,
            pos,
            other,
            child_of(t, n, index_of(pos[j as int])),
            (j - 1) as nat,
        );
    }
}

/// Item `r` is the last at or before the first chunk under `key`; -1 stands for none.
pub open spec fn last_upto(items: Seq<Leaf>, key: Seq<u8>, r: int) -> bool {
    &&& -1 <= r < items.len()
    &&& forall|x: int|
        0 <= x <= r ==> !precedes(key, 1, (#[trigger] items[x]).key, items[x].component)
    &&& forall|x: int|
        r < x < items.len() ==> precedes(key, 1, (#[trigger] items[x]).key, items[x].component)
}

/// Item `r` is the first chunk under `key`.
pub open spec fn is_first_of(items: Seq<Leaf>, key: Seq<u8>, r: int) -> bool {
    0 <= r < items.len() && items[r].key == key && items[r].component == 1
}

/// How a search compares with slot `x` of a leaf block.
proof fn lemma_leaf_order(t: TableSpec, key: Seq<u8>, n: u64, x: int)
    requires
        tree_ok(t, n, 0),
        0 <= x < count(t, n),
    ensures
        order_of(table::block_at(t, n).unwrap(), key, x, true) == Some(
            block::key_order(key, leaf_of(t, n, x).key, leaf_of(t, n, x).component),
        ),
{
    reveal(order_of);
    assert(block::leaf_at(table::block_at(t, n).unwrap(), slot_at(x)) is Some);
}

/// How a search compares with slot `x` of a branch block.
proof fn lemma_branch_order(t: TableSpec, key: Seq<u8>, n: u64, j: nat, x: int)
    requires
        tree_ok(t, n, j),
        j > 0,
        1 <= x < count(t, n),
    ensures
        order_of(table::block_at(t, n).unwrap(), key, x, false) == Some(
            block::key_order(key, separator_of(t, n, x).0, separator_of(t, n, x).1),
        ),
{
    reveal(order_of);
    assert(block::branch_at(table::block_at(t, n).unwrap(), slot_at(x)) is Some);
}

#[verifier::spinoff_prover]
#[verifier::rlimit(60)]
proof fn lemma_search_leaf(t: TableSpec, key: Seq<u8>, n: u64)
    requires
        tree_ok(t, n, 0),
        sorted(items_under(t, n, 0)),
    ensures
        table::descend(t, key, n, 0) matches Ok((pos, exact)) && {
            &&& pos.len() == 1
            &&& placed(t, pos, n, 0)
            &&& last_upto(items_under(t, n, 0), key, rank(t, pos, 0))
            &&& exact == is_first_of(items_under(t, n, 0), key, rank(t, pos, 0))
        },
{
    let d = table::block_at(t, n).unwrap();
    let items = items_under(t, n, 0);
    let q = count(t, n);
    lemma_upto_leaf(t, n, q);
    assert forall|x: int| 0 <= x < q implies (#[trigger] order_of(d, key, x, true)) == Some(
        block::key_order(key, items[x].key, items[x].component),
    ) by {
        lemma_leaf_order(t, key, n, x);
        assert(items[x] == leaf_of(t, n, x));
    }
    assert forall|x: int, y: int|
        0 <= x < y < q && (#[trigger] order_of(d, key, y, true)).unwrap() >= 0 implies (
    #[trigger] order_of(d, key, x, true)).unwrap() > 0 by {
        lemma_key_order(key, items[x].key, items[x].component);
        lemma_key_order(key, items[y].key, items[y].component);
        assert(precedes(items[x].key, items[x].component, items[y].key, items[y].component));
        if order_of(d, key, y, true).unwrap() > 0 {
            law_order_transitive(
                items[x].key,
                items[x].component,
                items[y].key,
                items[y].component,
                key,
                1,
            );
        }
    }
    lemma_chop(d, key, 0, q, true);
    assert(slot_at(-1) == 9);
    assert(slot_at(q) == block::dir_end(d));
    let (c, exact) = block::chop(d, key, 9, block::dir_end(d), true).unwrap();
    let i = (c - 11) / 2;
    assert forall|x: int| 0 <= x <= i implies !precedes(
        key,
        1,
        (#[trigger] items[x]).key,
        items[x].component,
    ) by {
        assert(order_of(d, key, x, true).unwrap() >= 0);
        lemma_key_order(key, items[x].key, items[x].component);
    }
    assert forall|x: int| i < x < items.len() implies precedes(
        key,
        1,
        (#[trigger] items[x]).key,
        items[x].component,
    ) by {
        assert(order_of(d, key, x, true).unwrap() < 0);
        lemma_key_order(key, items[x].key, items[x].component);
    }
    if 0 <= i {
        lemma_key_order(key, items[i].key, items[i].component);
        assert(order_of(d, key, i, true) is Some);
    }
}

/// The separators of a branch block ascend strictly.
proof fn lemma_separators_ascend(t: TableSpec, n: u64, j: nat, x: int, y: int)
    requires
        tree_ok(t, n, j),
        j > 0,
        1 <= x < y < count(t, n),
    ensures
        precedes(
            separator_of(t, n, x).0,
            separator_of(t, n, x).1,
            separator_of(t, n, y).0,
            separator_of(t, n, y).1,
        ),
{
    let all = items_under(t, n, j);
    let (kx, cx) = separator_of(t, n, x);
    let (ky, cy) = separator_of(t, n, y);
    lemma_slot_nonempty(t, n, j, x);
    lemma_upto_prefix(t, n, j, x + 1, y);
    lemma_upto_prefix(t, n, j, y, count(t, n));
    let w = items_upto(t, n, j, x).len() as int;
    assert(slot_at(x) == 11 + 2 * x && slot_at(y) == 11 + 2 * y);
    assert(separates(t, n, j, x) && separates(t, n, j, y));
    assert(!precedes(all[w].key, all[w].component, kx, cx));
    assert(precedes(all[w].key, all[w].component, ky, cy));
    law_order_total(all[w].key, all[w].component, kx, cx);
    if precedes(kx, cx, all[w].key, all[w].component) {
        law_order_transitive(kx, cx, all[w].key, all[w].component, ky, cy);
    }
}

/// Chopping a branch block ends on the last slot whose separator stands at or before the
/// search, or on the first slot.
#[verifier::rlimit(40)]
proof fn lemma_search_branch(t: TableSpec, key: Seq<u8>, n: u64, j: nat) -> (i: int)
    requires
        tree_ok(t, n, j),
        j > 0,
    ensures
        ({
            let d = table::block_at(t, n).unwrap();
            &&& block::chop(d, key, 11, block::dir_end(d), false) matches Some((c, _)) && c
                == slot_at(i) && index_of(Slot { n, c }) == i
            &&& 0 <= i < count(t, n)
            &&& 0 < i ==> !precedes(key, 1, separator_of(t, n, i).0, separator_of(t, n, i).1)
            &&& i + 1 < count(t, n) ==> precedes(
                key,
                1,
                separator_of(t, n, i + 1).0,
                separator_of(t, n, i + 1).1,
            )
        }),
{
    let d = table::block_at(t, n).unwrap();
    let q = count(t, n);
    assert forall|x: int| 1 <= x < q implies (#[trigger] order_of(d, key, x, false)) == Some(
        block::key_order(key, separator_of(t, n, x).0, separator_of(t, n, x).1),
    ) by {
        lemma_branch_order(t, key, n, j, x);
    }
    assert forall|x: int, y: int|
        1 <= x < y < q && (#[trigger] order_of(d, key, y, false)).unwrap() >= 0 implies (
    #[trigger] order_of(d, key, x, false)).unwrap() > 0 by {
        let (kx, cx) = separator_of(t, n, x);
        let (ky, cy) = separator_of(t, n, y);
        lemma_key_order(key, kx, cx);
        lemma_key_order(key, ky, cy);
        lemma_separators_ascend(t, n, j, x, y);
        if precedes(ky, cy, key, 1) {
            law_order_transitive(kx, cx, ky, cy, key, 1);
        }
    }
    lemma_chop(d, key, 1, q, false);
    assert(slot_at(0) == 11);
    assert(slot_at(q) == block::dir_end(d));
    let (c, exact) = block::chop(d, key, 11, block::dir_end(d), false).unwrap();
    let i = (c - 11) / 2;
    if 0 < i {
        assert(order_of(d, key, i, false).unwrap() >= 0);
        lemma_key_order(key, separator_of(t, n, i).0, separator_of(t, n, i).1);
    }
    if i + 1 < q {
        assert(order_of(d, key, i + 1, false).unwrap() < 0);
        lemma_key_order(key, separator_of(t, n, i + 1).0, separator_of(t, n, i + 1).1);
    }
    i
}

/// Descending for `key` ends on the last item at or before the first chunk under `key`.
#[verifier::rlimit(40)]
proof fn lemma_descend(t: TableSpec, key: Seq<u8>, n: u64, j: nat)
    requires
        tree_ok(t, n, j),
        sorted(items_under(t, n, j)),
    ensures
        table::descend(t, key, n, j) matches Ok((pos, exact)) && {
            &&& pos.len() == j + 1
            &&& placed(t, pos, n, j)
            &&& last_upto(items_under(t, n, j), key, rank(t, pos, j))
            &&& exact == is_first_of(items_under(t, n, j), key, rank(t, pos, j))
        },
    decreases j,
{
    if j == 0 {
        lemma_search_leaf(t, key, n);
    } else {
        let d = table::block_at(t, n).unwrap();
        let all = items_under(t, n, j);
        let i = lemma_search_branch(t, key, n, j);
        let child = child_of(t, n, i);
        let sub = items_under(t, child, (j - 1) as nat);
        let left = items_upto(t, n, j, i).len() as int;
        lemma_slot_nonempty(t, n, j, i);
        lemma_upto_prefix(t, n, j, i + 1, count(t, n));
        assert(slot_at(i) == 11 + 2 * i);
        assert forall|x: int| 0 <= x < sub.len() implies #[trigger] sub[x] == all[left + x] by {}
        lemma_descend(t, key, child, (j - 1) as nat);
        let (below, exact) = table::descend(t, key, child, (j - 1) as nat).unwrap();
        let pos = below.push(Slot { n, c: slot_at(i) });
        let inner = rank(t, below, (j - 1) as nat);
        lemma_placed_agree(t, below, pos, child, (j - 1) as nat);
        let r = left + inner;
        assert(index_of(pos[j as int]) == i);
        assert(rank(t, pos, j) == r);
        assert forall|x: int| 0 <= x <= r implies !precedes(
            key,
            1,
            (#[trigger] all[x]).key,
            all[x].component,
        ) by {
            if x >= left {
                assert(all[x] == sub[x - left]);
            } else {
                assert(slot_at(i) == 11 + 2 * i);
                assert(separates(t, n, j, i));
                let (k, c) = separator_of(t, n, i);
                if precedes(key, 1, all[x].key, all[x].component) {
                    law_order_transitive(key, 1, all[x].key, all[x].component, k, c);
                }
            }
        }
        assert forall|x: int| r < x < all.len() implies precedes(
            key,
            1,
            (#[trigger] all[x]).key,
            all[x].component,
        ) by {
            if x < left + sub.len() {
                assert(all[x] == sub[x - left]);
            } else {
                assert(i + 1 < count(t, n));
                assert(slot_at(i + 1) == 11 + 2 * (i + 1));
                assert(separates(t, n, j, i + 1));
                let (k, c) = separator_of(t, n, i + 1);
                law_order_total(all[x].key, all[x].component, k, c);
                if precedes(k, c, all[x].key, all[x].component) {
                    law_order_transitive(key, 1, k, c, all[x].key, all[x].component);
                }
            }
        }
        if inner < 0 && left > 0 {
            assert(separates(t, n, j, i));
            let (k, c) = separator_of(t, n, i);
            law_order_irreflexive(key, 1);
            assert(precedes(all[r].key, all[r].component, k, c));
        } else if inner >= 0 {
            assert(all[r] == sub[inner]);
        }
    }
}

// Walking the tree.

/// The slot lies in the directory of its block.
spec fn slot_ok(t: TableSpec, s: Slot) -> bool {
    s.c == slot_at(index_of(s)) && 0 <= index_of(s) < count(t, s.n)
}

/// The levels of `pos` from the root down to level `j` follow each other: the block on
/// each level is the child that the slot above points to.
spec fn linked(t: TableSpec, pos: Seq<Slot>, j: int) -> bool
    decreases pos.len() - j,
{
    if j >= pos.len() - 1 {
        j == pos.len() - 1 && j == t.level && pos[j].n == t.root
    } else {
        &&& linked(t, pos, j + 1)
        &&& slot_ok(t, pos[j + 1])
        &&& pos[j].n == child_of(t, pos[j + 1].n, index_of(pos[j + 1]))
    }
}

/// The number of items before the slots of `pos`, from level `j` up.
spec fn items_before(t: TableSpec, pos: Seq<Slot>, j: int) -> int
    decreases pos.len() - j,
{
    if j < 0 || j >= pos.len() {
        0
    } else {
        items_before(t, pos, j + 1) + items_upto(t, pos[j].n, j as nat, index_of(pos[j])).len()
    }
}

proof fn lemma_linked_ok(t: TableSpec, pos: Seq<Slot>, j: int)
    requires
        tree_ok(t, t.root, t.level),
        linked(t, pos, j),
        0 <= j,
    ensures
        0 <= j < pos.len(),
        tree_ok(t, pos[j].n, j as nat),
    decreases pos.len() - j,
{
    if j < pos.len() - 1 {
        lemma_linked_ok(t, pos, j + 1);
        assert(slot_at(index_of(pos[j + 1])) == pos[j + 1].c);
    }
}

proof fn lemma_linked_agree(t: TableSpec, pos: Seq<Slot>, other: Seq<Slot>, j: int)
    requires
        linked(t, pos, j),
        0 <= j < pos.len(),
        pos.len() == other.len(),
        pos[j].n == other[j].n,
        forall|k: int| j < k < pos.len() ==> pos[k] == other[k],
    ensures
        linked(t, other, j),
        items_before(t, other, j + 1) == items_before(t, pos, j + 1),
    decreases pos.len() - j,
{
    if j < pos.len() - 1 {
        assert(pos[j + 1] == other[j + 1]);
        lemma_linked_agree(t, pos, other, j + 1);
    }
}

/// The items under the block on level `j` of a position stand where `items_before` says.
#[verifier::spinoff_prover]
#[verifier::rlimit(60)]
proof fn lemma_items_at(t: TableSpec, pos: Seq<Slot>, j: int)
    requires
        tree_ok(t, t.root, t.level),
        linked(t, pos, j),
        0 <= j < pos.len(),
    ensures
        ({
            let from = items_before(t, pos, j + 1);
            let sub = items_under(t, pos[j].n, j as nat);
            &&& 0 <= from
            &&& from + sub.len() <= items_of(t).len()
            &&& forall|x: int| 0 <= x < sub.len() ==> items_of(t)[from + x] == #[trigger] sub[x]
        }),
    decreases pos.len() - j,
{
    if j < pos.len() - 1 {
        lemma_items_at(t, pos, j + 1);
        lemma_linked_ok(t, pos, j + 1);
        let up = pos[j + 1];
        let i = index_of(up);
        lemma_slot_nonempty(t, up.n, (j + 1) as nat, i);
        lemma_upto_prefix(t, up.n, (j + 1) as nat, i + 1, count(t, up.n));
        let sub = items_under(t, pos[j].n, j as nat);
        let left = items_upto(t, up.n, (j + 1) as nat, i).len() as int;
        let above = items_under(t, up.n, (j + 1) as nat);
        let from = items_before(t, pos, j + 1);
        assert(from == items_before(t, pos, j + 2) + left);
        assert forall|x: int| 0 <= x < sub.len() implies items_of(t)[from + x]
            == #[trigger] sub[x] by {
            assert(above[left + x] == sub[x]);
            assert(items_of(t)[items_before(t, pos, j + 2) + (left + x)] == above[left + x]);
        }
    }
}

/// The number of items up to and including those under the slot on level `j`.
spec fn items_through(t: TableSpec, pos: Seq<Slot>, j: int) -> int {
    items_before(t, pos, j + 1) + items_upto(t, pos[j].n, j as nat, index_of(pos[j]) + 1).len()
}

/// Advancing moves on by exactly the items under the slot that is left.
#[verifier::spinoff_prover]
#[verifier::rlimit(80)]
proof fn lemma_advance_by_one(t: TableSpec, pos: Seq<Slot>, j: int)
    requires
        tree_ok(t, t.root, t.level),
        linked(t, pos, j),
        0 <= j < pos.len(),
        pos[j].c == slot_at(index_of(pos[j])),
        -1 <= index_of(pos[j]) < count(t, pos[j].n),
    ensures
        match table::advance(t, pos, j) {
            Err(_) => false,
            Ok(None) => items_through(t, pos, j) == items_of(t).len(),
            Ok(Some(next)) => {
                &&& next.len() == pos.len()
                &&& linked(t, next, j)
                &&& slot_ok(t, next[j])
                &&& items_before(t, next, j) == items_through(t, pos, j)
                &&& j > 0 ==> next[j - 1] == (Slot {
                    n: child_of(t, next[j].n, index_of(next[j])),
                    c: 11,
                })
            },
        },
    decreases pos.len() - j,
{
    lemma_linked_ok(t, pos, j);
    let n = pos[j].n;
    let d = table::block_at(t, n).unwrap();
    let i = index_of(pos[j]);
    if pos[j].c + 2 < block::dir_end(d) {
        assert(pos[j].c + 2 == slot_at(i + 1));
        lemma_enter_slot(t, pos, j, i + 1);
    } else {
        assert(i + 1 == count(t, n));
        if j + 1 < pos.len() {
            let up = pos[j + 1];
            lemma_linked_ok(t, pos, j + 1);
            lemma_slot_nonempty(t, up.n, (j + 1) as nat, index_of(up));
            lemma_advance_by_one(t, pos, j + 1);
            assert(items_through(t, pos, j) == items_through(t, pos, j + 1));
            if let Ok(Some(next)) = table::advance(t, pos, j + 1) {
                assert(linked(t, next, j));
                lemma_linked_ok(t, next, j);
                assert(slot_at(0) == 11);
                lemma_enter_slot(t, next, j, 0);
            }
        } else {
            assert(table::advance(t, pos, j + 1) == Ok::<
                Option<Seq<Slot>>,
                crate::error::Error,
            >(None));
        }
    }
}

proof fn lemma_enter_slot(t: TableSpec, pos: Seq<Slot>, j: int, i: int)
    requires
        tree_ok(t, t.root, t.level),
        linked(t, pos, j),
        0 <= j < pos.len(),
        0 <= i < count(t, pos[j].n),
    ensures
        table::enter(t, pos, j, slot_at(i)) matches Ok(Some(next)) && {
            &&& next.len() == pos.len()
            &&& linked(t, next, j)
            &&& slot_ok(t, next[j])
            &&& items_before(t, next, j) == items_before(t, pos, j + 1) + items_upto(
                t,
                pos[j].n,
                j as nat,
                i,
            ).len()
            &&& j > 0 ==> next[j - 1] == (Slot {
                n: child_of(t, next[j].n, index_of(next[j])),
                c: 11,
            })
        },
{
    lemma_linked_ok(t, pos, j);
    let n = pos[j].n;
    let c = slot_at(i);
    assert(index_of(Slot { n, c }) == i);
    let here = pos.update(j, Slot { n, c });
    if j == 0 {
        lemma_linked_agree(t, pos, here, j);
    } else {
        let child = child_of(t, n, i);
        assert(tree_ok(t, child, (j - 1) as nat));
        let next = here.update(j - 1, Slot { n: child, c: 11 });
        lemma_linked_agree(t, pos, next, j);
    }
}

proof fn lemma_linked_slots(t: TableSpec, pos: Seq<Slot>, j: int, k: int)
    requires
        tree_ok(t, t.root, t.level),
        linked(t, pos, j),
        0 <= j < k < pos.len(),
    ensures
        11 <= pos[k].c <= 0xffff,
    decreases pos.len() - j,
{
    lemma_linked_ok(t, pos, j + 1);
    if j + 1 < k {
        lemma_linked_slots(t, pos, j + 1, k);
    }
}

/// The item at a position is the one that `items_before` counts up to.
proof fn lemma_item(t: TableSpec, pos: Seq<Slot>)
    requires
        tree_ok(t, t.root, t.level),
        linked(t, pos, 0),
        slot_ok(t, pos[0]),
    ensures
        table::slots_ok(pos),
        0 <= items_before(t, pos, 0) < items_of(t).len(),
        table::item_at(t, pos) == Some(items_of(t)[items_before(t, pos, 0)]),
        items_through(t, pos, 0) == items_before(t, pos, 0) + 1,
{
    let i = index_of(pos[0]);
    lemma_linked_ok(t, pos, 0);
    lemma_items_at(t, pos, 0);
    lemma_upto_leaf(t, pos[0].n, i);
    lemma_upto_leaf(t, pos[0].n, i + 1);
    lemma_upto_leaf(t, pos[0].n, count(t, pos[0].n));
    assert(items_under(t, pos[0].n, 0)[i] == leaf_of(t, pos[0].n, i));
    assert(block::leaf_at(table::block_at(t, pos[0].n).unwrap(), slot_at(i)) is Some);
    assert forall|k: int| 0 <= k < pos.len() implies 9 <= #[trigger] pos[k].c <= 0xffff by {
        if k > 0 {
            lemma_linked_slots(t, pos, 0, k);
        }
    }
}

/// The run from a position holds exactly the items from there to the end of the table.
#[verifier::spinoff_prover]
#[verifier::rlimit(60)]
proof fn lemma_run(t: TableSpec, pos: Seq<Slot>)
    requires
        tree_ok(t, t.root, t.level),
        linked(t, pos, 0),
        slot_ok(t, pos[0]),
    ensures
        table::run_from(t, pos) == run_at(items_of(t), items_before(t, pos, 0)),
    decreases items_of(t).len() - items_before(t, pos, 0),
{
    let all = items_of(t);
    let at = items_before(t, pos, 0);
    lemma_item(t, pos);
    lemma_advance_by_one(t, pos, 0);
    table::lemma_advance(t, pos, 0);
    if let Ok(Some(next)) = table::advance(t, pos, 0) {
        lemma_item(t, next);
        lemma_run(t, next);
        assert(run_at(all, at).items =~= seq![Some(all[at])] + run_at(all, at + 1).items);
    } else {
        assert(run_at(all, at).items =~= seq![Some(all[at])]);
    }
}

/// A position that leads down from level `j` is linked down to the leaf.
proof fn lemma_placed_linked(t: TableSpec, pos: Seq<Slot>, j: nat)
    requires
        linked(t, pos, j as int),
        j < pos.len(),
        placed(t, pos, pos[j as int].n, j),
    ensures
        linked(t, pos, 0),
        items_before(t, pos, 1) + index_of(pos[0]) == items_before(t, pos, j as int + 1) + rank(
            t,
            pos,
            j,
        ),
        pos[0].c == slot_at(index_of(pos[0])),
        -1 <= index_of(pos[0]) < count(t, pos[0].n),
    decreases j,
{
    if j > 0 {
        let child = child_of(t, pos[j as int].n, index_of(pos[j as int]));
        assert(placed(t, pos, child, (j - 1) as nat));
        lemma_placed_linked(t, pos, (j - 1) as nat);
    }
}

/// Descending to the leftmost item ends on the first item.
proof fn lemma_leftmost(t: TableSpec, n: u64, j: nat)
    requires
        tree_ok(t, n, j),
    ensures
        table::leftmost(t, n, j) matches Ok(pos) && {
            &&& pos.len() == j + 1
            &&& placed(t, pos, n, j)
            &&& rank(t, pos, j) == 0
        },
    decreases j,
{
    assert(slot_at(0) == 11);
    if j > 0 {
        let child = child_of(t, n, 0);
        lemma_leftmost(t, child, (j - 1) as nat);
        let below = table::leftmost(t, child, (j - 1) as nat).unwrap();
        let pos = below.push(Slot { n, c: 11 });
        lemma_placed_agree(t, below, pos, child, (j - 1) as nat);
        assert(index_of(pos[j as int]) == 0);
    } else {
        assert(index_of(Slot { n, c: 11 }) == 0);
    }
}

// What follows for whole tables.

/// Searching a well-formed table for `key` ends on the last item at or before the first
/// chunk under `key`, and finds that chunk where the table stores it. The walk from
/// there, and from the item behind, goes through every item to the last.
pub proof fn law_search(t: TableSpec, key: Seq<u8>) -> (r: int)
    requires
        table_ok(t),
    ensures
        last_upto(items_of(t), key, r),
        table::descend(t, key, t.root, t.level) matches Ok((pos, exact)) && {
            &&& exact == is_first_of(items_of(t), key, r)
            &&& exact ==> table::run_from(t, pos) == run_at(items_of(t), r)
            &&& match entries::step_behind(t, pos) {
                Ok(Some(next)) => r + 1 < items_of(t).len() && table::run_from(t, next) == run_at(
                    items_of(t),
                    r + 1,
                ),
                Ok(None) => r + 1 == items_of(t).len(),
                Err(_) => false,
            }
        },
{
    lemma_descend(t, key, t.root, t.level);
    let (pos, exact) = table::descend(t, key, t.root, t.level).unwrap();
    assert(linked(t, pos, t.level as int));
    lemma_placed_linked(t, pos, t.level);
    let r = rank(t, pos, t.level);
    let i = index_of(pos[0]);
    lemma_linked_ok(t, pos, 0);
    if i >= 0 {
        lemma_upto_leaf(t, pos[0].n, i);
        assert(items_before(t, pos, 0) == r);
        lemma_run(t, pos);
        lemma_item(t, pos);
        lemma_advance_by_one(t, pos, 0);
        if let Ok(Some(next)) = table::advance(t, pos, 0) {
            lemma_item(t, next);
            lemma_run(t, next);
        }
    } else {
        let next = pos.update(0, Slot { n: pos[0].n, c: 11 });
        assert(slot_at(0) == 11 && index_of(next[0]) == 0);
        lemma_linked_agree(t, pos, next, 0);
        assert(items_before(t, next, 0) == items_before(t, pos, 1));
        lemma_item(t, next);
        lemma_run(t, next);
        assert(r == items_before(t, pos, 1) - 1);
        if exact {
            lemma_items_at(t, pos, 0);
            lemma_upto_leaf(t, pos[0].n, count(t, pos[0].n));
            lemma_not_before_leaf(t, key, t.root, t.level);
        }
    }
    r
}

/// Walking a well-formed table from its leftmost position goes through every item.
pub proof fn law_walk(t: TableSpec)
    requires
        tree_ok(t, t.root, t.level),
    ensures
        items_of(t).len() > 0,
        table::leftmost(t, t.root, t.level) matches Ok(pos) && table::run_from(t, pos) == run_at(
            items_of(t),
            0,
        ),
{
    lemma_under_nonempty(t, t.root, t.level);
    lemma_leftmost(t, t.root, t.level);
    let pos = table::leftmost(t, t.root, t.level).unwrap();
    assert(linked(t, pos, t.level as int));
    lemma_placed_linked(t, pos, t.level);
    lemma_leftmost_slot(t, t.root, t.level);
    lemma_upto_leaf(t, pos[0].n, 0);
    lemma_run(t, pos);
}

proof fn lemma_leftmost_slot(t: TableSpec, n: u64, j: nat)
    requires
        tree_ok(t, n, j),
    ensures
        table::leftmost(t, n, j) matches Ok(pos) && pos.len() == j + 1 && pos[0].c == 11,
    decreases j,
{
    assert(slot_at(0) == 11);
    if j > 0 {
        lemma_leftmost_slot(t, child_of(t, n, 0), (j - 1) as nat);
    }
}

/// A search that ends before the first item of a leaf has not found its key.
proof fn lemma_not_before_leaf(t: TableSpec, key: Seq<u8>, n: u64, j: nat)
    requires
        tree_ok(t, n, j),
        sorted(items_under(t, n, j)),
    ensures
        table::descend(t, key, n, j) matches Ok((pos, exact)) && pos.len() == j + 1 && (exact
            ==> index_of(pos[0]) >= 0),
    decreases j,
{
    lemma_descend(t, key, n, j);
    if j > 0 {
        let i = lemma_search_branch(t, key, n, j);
        lemma_slot_nonempty(t, n, j, i);
        lemma_upto_prefix(t, n, j, i + 1, count(t, n));
        let child = child_of(t, n, i);
        assert(slot_at(i) == 11 + 2 * i);
        let sub = items_under(t, child, (j - 1) as nat);
        let all = items_under(t, n, j);
        let left = items_upto(t, n, j, i).len() as int;
        assert forall|x: int| 0 <= x < sub.len() implies #[trigger] sub[x] == all[left + x] by {}
        lemma_not_before_leaf(t, key, child, (j - 1) as nat);
    }
}

} // verus!
