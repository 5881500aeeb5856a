//! What blocks hold, and what searching one of them finds.

use crate::bytes;
use crate::glass::block;
use crate::glass::block::Leaf;
use crate::glass::table;
use crate::glass::table::TableSpec;
use crate::glass::tree;
use vstd::prelude::*;

verus! {

proof fn lemma_leaf_upto(t: TableSpec, n: u64, k: int)
    requires
        0 <= k,
    ensures
        tree::items_upto(t, n, 0, k).len() == k,
        forall|i: int|
            0 <= i < k ==> (#[trigger] tree::items_upto(t, n, 0, k)[i]) == tree::leaf_of(t, n, i),
    decreases k,
{
    if k > 0 {
        lemma_leaf_upto(t, n, k - 1);
    }
}

/// How a search compares with the item of directory slot `i`.
spec fn order_of(d: Seq<u8>, search: Seq<u8>, i: int, in_leaf: bool) -> Option<int> {
    block::order_at(d, search, 11 + 2 * i, in_leaf)
}

/// Where the slots from `p` on are readable and in order, the chop ends on the last that
/// the search stands at or behind.
proof fn lemma_chop(d: Seq<u8>, search: Seq<u8>, p: int, q: int, in_leaf: bool)
    requires
        p <= q,
        forall|x: int| p <= x < q ==> (#[trigger] order_of(d, search, x, in_leaf)) is Some,
        forall|x: int, y: int|
            p <= x < y < q && (#[trigger] order_of(d, search, y, in_leaf)).unwrap() >= 0 ==> (
            #[trigger] order_of(d, search, x, in_leaf)).unwrap() > 0,
    ensures
        block::chop(d, search, 9 + 2 * p, 11 + 2 * q, in_leaf) matches Some((at, exact)) && {
            let c = (at - 11) / 2;
            &&& at == 11 + 2 * c
            &&& p - 1 <= c < q
            &&& forall|x: int|
                p <= x <= c ==> (#[trigger] order_of(d, search, x, in_leaf)).unwrap() >= 0
            &&& forall|x: int|
                c < x < q ==> (#[trigger] order_of(d, search, x, in_leaf)).unwrap() < 0
            &&& exact == (p <= c && order_of(d, search, c, in_leaf).unwrap() == 0)
        },
    decreases q - p,
{
    if q > p {
        let mid = p - 1 + (q - p + 1) / 2;
        assert(p <= mid < q);
        assert(11 + 2 * mid == 9 + 2 * p + ((11 + 2 * q - (9 + 2 * p)) / 4) * 2);
        let o = order_of(d, search, mid, in_leaf);
        assert(o is Some);
        let r = o.unwrap();
        if r < 0 {
            lemma_chop(d, search, p, mid, in_leaf);
        } else if r == 0 {
            assert((11 + 2 * mid - 11) / 2 == mid);
        } else {
            lemma_chop(d, search, mid + 1, q, in_leaf);
        }
    }
}

/// The items under a leaf block are those that its directory points to, slot by slot.
pub proof fn law_leaf_items(t: TableSpec, n: u64, d: Seq<u8>, items: Seq<Leaf>)
    requires
        table::block_at(t, n) == Some(d),
        256 * d[9] + d[10] == 11 + 2 * items.len(),
        forall|i: int|
            0 <= i < items.len() ==> block::leaf_at(d, 11 + 2 * i) == Some(#[trigger] items[i]),
    ensures
        tree::items_under(t, n, 0) == items,
{
    bytes::law_big_endian(d, 9);
    lemma_leaf_upto(t, n, items.len() as int);
    assert forall|i: int| 0 <= i < items.len() implies #[trigger] tree::items_under(t, n, 0)[i]
        == items[i] by {
        assert(block::leaf_at(d, 11 + 2 * i) == Some(items[i]));
    }
    assert(tree::items_under(t, n, 0) =~= items);
}

proof fn lemma_flatten_last(lists: Seq<Seq<Leaf>>, k: int)
    requires
        0 <= k < lists.len(),
    ensures
        lists.take(k + 1).flatten() == lists.take(k).flatten() + lists[k],
    decreases k,
{
    let more = lists.take(k + 1);
    let less = lists.take(k);
    assert(more.drop_last() =~= less);
    more.lemma_flatten_and_flatten_alt_are_equivalent();
    less.lemma_flatten_and_flatten_alt_are_equivalent();
    assert(more.flatten_alt() == less.flatten_alt() + more.last());
}

/// The items under a branch block are those under its children, child by child.
pub proof fn law_branch_items(
    t: TableSpec,
    n: u64,
    j: nat,
    d: Seq<u8>,
    children: Seq<u64>,
    lists: Seq<Seq<Leaf>>,
)
    requires
        j > 0,
        table::block_at(t, n) == Some(d),
        256 * d[9] + d[10] == 11 + 2 * children.len(),
        children.len() == lists.len(),
        forall|i: int|
            0 <= i < children.len() ==> block::child_at(d, 11 + 2 * i) == Some(
                #[trigger] children[i],
            ),
        forall|i: int|
            0 <= i < children.len() ==> tree::items_under(t, #[trigger] children[i], (j - 1) as nat)
                == lists[i],
    ensures
        tree::items_under(t, n, j) == lists.flatten(),
{
    bytes::law_big_endian(d, 9);
    lemma_branch_items(t, n, j, d, children, lists, lists.len() as int);
    assert(lists.take(lists.len() as int) =~= lists);
}

proof fn lemma_branch_items(
    t: TableSpec,
    n: u64,
    j: nat,
    d: Seq<u8>,
    children: Seq<u64>,
    lists: Seq<Seq<Leaf>>,
    k: int,
)
    requires
        j > 0,
        table::block_at(t, n) == Some(d),
        children.len() == lists.len(),
        0 <= k <= children.len(),
        forall|i: int|
            0 <= i < children.len() ==> block::child_at(d, 11 + 2 * i) == Some(
                #[trigger] children[i],
            ),
        forall|i: int|
            0 <= i < children.len() ==> tree::items_under(t, #[trigger] children[i], (j - 1) as nat)
                == lists[i],
    ensures
        tree::items_upto(t, n, j, k) == lists.take(k).flatten(),
    decreases k,
{
    if k == 0 {
        assert(lists.take(0).flatten() =~= Seq::<Leaf>::empty());
    } else {
        lemma_branch_items(t, n, j, d, children, lists, k - 1);
        lemma_flatten_last(lists, k - 1);
        assert(block::child_at(d, 11 + 2 * (k - 1)) == Some(children[k - 1]));
        assert(tree::child_of(t, n, k - 1) == children[k - 1]);
    }
}

/// Searching a leaf block whose items are in order ends on the last item at or before the
/// search key, and says whether that item is its first chunk.
pub proof fn law_leaf_searched(d: Seq<u8>, search: Seq<u8>, items: Seq<Leaf>) -> (r: int)
    requires
        256 * d[9] + d[10] == 11 + 2 * items.len(),
        forall|i: int|
            0 <= i < items.len() ==> block::leaf_at(d, 11 + 2 * i) == Some(#[trigger] items[i]),
        tree::sorted(items),
    ensures
        0 <= r <= items.len(),
        forall|x: int|
            0 <= x < r ==> !tree::precedes(search, 1, (#[trigger] items[x]).key, items[x].component),
        forall|x: int|
            r <= x < items.len() ==> tree::precedes(
                search,
                1,
                (#[trigger] items[x]).key,
                items[x].component,
            ),
        block::chop(d, search, 9, block::dir_end(d), true) == Some(
            (
                9 + 2 * r,
                r > 0 && items[r - 1].key == search && items[r - 1].component == 1,
            ),
        ),
{
    bytes::law_big_endian(d, 9);
    let q = items.len() as int;
    assert forall|x: int| 0 <= x < q implies #[trigger] order_of(d, search, x, true) == Some(
        block::key_order(search, items[x].key, items[x].component),
    ) by {
        assert(block::leaf_at(d, 11 + 2 * x) == Some(items[x]));
    }
    assert forall|x: int| 0 <= x < q implies {
        let o = #[trigger] block::key_order(search, items[x].key, items[x].component);
        &&& o < 0 <==> tree::precedes(search, 1, items[x].key, items[x].component)
        &&& o == 0 <==> (search == items[x].key && items[x].component == 1)
        &&& o > 0 <==> tree::precedes(items[x].key, items[x].component, search, 1)
    } by {
        tree::lemma_key_order(search, items[x].key, items[x].component);
    }
    assert forall|x: int, y: int|
        0 <= x < y < q && (#[trigger] order_of(d, search, y, true)).unwrap() >= 0 implies (
    #[trigger] order_of(d, search, x, true)).unwrap() > 0 by {
        let (a, b) = (items[x], items[y]);
        assert(tree::precedes(a.key, a.component, b.key, b.component));
        if tree::precedes(b.key, b.component, search, 1) {
            tree::law_order_transitive(a.key, a.component, b.key, b.component, search, 1);
        }
    }
    lemma_chop(d, search, 0, q, true);
    let (c, exact) = block::chop(d, search, 9, 11 + 2 * q, true).unwrap();
    let r = (c - 11) / 2 + 1;
    assert forall|x: int| 0 <= x < r implies !tree::precedes(
        search,
        1,
        (#[trigger] items[x]).key,
        items[x].component,
    ) by {
        assert(order_of(d, search, x, true).unwrap() >= 0);
    }
    assert forall|x: int| r <= x < items.len() implies tree::precedes(
        search,
        1,
        (#[trigger] items[x]).key,
        items[x].component,
    ) by {
        assert(order_of(d, search, x, true).unwrap() < 0);
    }
    r
}

/// Searching a branch block whose keys are in order ends on the last slot, behind the
/// first, whose key is at or before the search key, and on the first where there is none.
pub proof fn law_branch_searched(d: Seq<u8>, search: Seq<u8>, keys: Seq<(Seq<u8>, int)>) -> (r:
    int)
    requires
        keys.len() > 0,
        256 * d[9] + d[10] == 11 + 2 * keys.len(),
        forall|i: int|
            0 < i < keys.len() ==> block::branch_at(d, 11 + 2 * i) == Some(#[trigger] keys[i]),
        forall|i: int, j: int|
            0 < i < j < keys.len() ==> tree::precedes(
                (#[trigger] keys[i]).0,
                keys[i].1,
                (#[trigger] keys[j]).0,
                keys[j].1,
            ),
    ensures
        0 <= r < keys.len(),
        forall|x: int|
            0 < x <= r ==> !tree::precedes(search, 1, (#[trigger] keys[x]).0, keys[x].1),
        forall|x: int|
            r < x < keys.len() ==> tree::precedes(search, 1, (#[trigger] keys[x]).0, keys[x].1),
        block::chop(d, search, 11, block::dir_end(d), false) matches Some((c, _)) && c == 11 + 2
            * r,
{
    bytes::law_big_endian(d, 9);
    let q = keys.len() as int;
    assert forall|x: int| 0 < x < q implies #[trigger] order_of(d, search, x, false) == Some(
        block::key_order(search, keys[x].0, keys[x].1),
    ) by {
        assert(block::branch_at(d, 11 + 2 * x) == Some(keys[x]));
    }
    assert forall|x: int| 0 < x < q implies {
        let o = #[trigger] block::key_order(search, keys[x].0, keys[x].1);
        &&& o < 0 <==> tree::precedes(search, 1, keys[x].0, keys[x].1)
        &&& o == 0 <==> (search == keys[x].0 && keys[x].1 == 1)
        &&& o > 0 <==> tree::precedes(keys[x].0, keys[x].1, search, 1)
    } by {
        tree::lemma_key_order(search, keys[x].0, keys[x].1);
    }
    assert forall|x: int, y: int|
        1 <= x < y < q && (#[trigger] order_of(d, search, y, false)).unwrap() >= 0 implies (
    #[trigger] order_of(d, search, x, false)).unwrap() > 0 by {
        let (a, b) = (keys[x], keys[y]);
        assert(tree::precedes(a.0, a.1, b.0, b.1));
        if tree::precedes(b.0, b.1, search, 1) {
            tree::law_order_transitive(a.0, a.1, b.0, b.1, search, 1);
        }
    }
    lemma_chop(d, search, 1, q, false);
    let (c, exact) = block::chop(d, search, 11, 11 + 2 * q, false).unwrap();
    let r = (c - 11) / 2;
    assert forall|x: int| 0 < x <= r implies !tree::precedes(
        search,
        1,
        (#[trigger] keys[x]).0,
        keys[x].1,
    ) by {
        assert(order_of(d, search, x, false).unwrap() >= 0);
    }
    assert forall|x: int| r < x < keys.len() implies tree::precedes(
        search,
        1,
        (#[trigger] keys[x]).0,
        keys[x].1,
    ) by {
        assert(order_of(d, search, x, false).unwrap() < 0);
    }
    r
}

/// Items are ordered by key and, under one key, by chunk number.
pub proof fn law_item_order(ka: Seq<u8>, ca: int, kb: Seq<u8>, cb: int)
    ensures
        tree::precedes(ka, ca, kb, cb) <==> (ka == kb && ca < cb) || exists|k: int| #[trigger]
            bytes::decides(ka, kb, k),
{
    bytes::law_lex_decided(ka, kb);
}

} // verus!
