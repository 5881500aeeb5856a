//! What the public operations give back of a well-formed table.

use crate::error::Error;
use crate::glass::block;
use crate::glass::block::Leaf;
use crate::glass::entries;
use crate::glass::inflate;
use crate::glass::list_laws;
use crate::glass::postlist;
use crate::glass::postlist::PostlistSpec;
use crate::glass::table;
use crate::glass::table::{Run, TableSpec};
use crate::glass::tree;
use vstd::prelude::*;

verus! {

proof fn lemma_run_at(items: Seq<Leaf>, i: int)
    requires
        0 <= i < items.len(),
    ensures
        tree::run_at(items, i).items.len() == items.len() - i,
        tree::run_at(items, i).items[0] == Some(items[i]),
        tree::run_at(items, i).rest() == tree::run_at(items, i + 1),
{
    assert(tree::run_at(items, i).rest().items =~= tree::run_at(items, i + 1).items);
}

/// The first chunk under a key is stored once at most.
proof fn lemma_first_unique(items: Seq<Leaf>, key: Seq<u8>, r: int, i: int)
    requires
        tree::sorted(items),
        tree::last_upto(items, key, r),
        tree::is_first_of(items, key, i),
    ensures
        r == i,
{
    tree::law_order_irreflexive(key, 1);
    if i < r {
        assert(tree::precedes(
            items[i].key,
            items[i].component,
            items[r].key,
            items[r].component,
        ));
    }
}

/// Looking up a key that a well-formed table stores reads the tag that starts with its
/// first chunk.
pub proof fn law_lookup(t: TableSpec, key: Seq<u8>, i: int)
    requires
        tree::table_ok(t),
        !t.root_is_fake,
        0 < key.len() <= 255,
        tree::is_first_of(tree::items_of(t), key, i),
    ensures
        entries::entry_of(t, key) == (match entries::tag_of(tree::run_at(tree::items_of(t), i)) {
            Ok((tag, _)) => Ok(Some(tag)),
            Err(e) => Err(e),
        }),
{
    let r = tree::law_search(t, key);
    lemma_first_unique(tree::items_of(t), key, r, i);
}

/// Looking up a key that a well-formed table does not store finds nothing.
pub proof fn law_lookup_missing(t: TableSpec, key: Seq<u8>)
    requires
        tree::table_ok(t),
        forall|i: int| !tree::is_first_of(tree::items_of(t), key, i),
    ensures
        entries::entry_of(t, key) == Ok::<Option<Seq<u8>>, Error>(None),
{
    let r = tree::law_search(t, key);
    assert(!tree::is_first_of(tree::items_of(t), key, r));
}

/// The bytes of chunks, one behind the other.
pub open spec fn joined(chunks: Seq<Leaf>) -> Seq<u8>
    decreases chunks.len(),
{
    if chunks.len() == 0 {
        Seq::empty()
    } else {
        chunks[0].chunk + joined(chunks.drop_first())
    }
}

/// Items `i` up to, not including, `i + n` are the chunks of one tag: the last of them,
/// and no other, is marked as the last.
pub open spec fn one_tag(items: Seq<Leaf>, i: int, n: int) -> bool {
    &&& 0 <= i
    &&& 0 < n
    &&& i + n <= items.len()
    &&& forall|k: int| i <= k < i + n ==> (#[trigger] items[k]).last == (k == i + n - 1)
}

/// A tag is read back from all its chunks, joined in order.
pub proof fn law_chunks_joined(items: Seq<Leaf>, i: int, n: int)
    requires
        one_tag(items, i, n),
    ensures
        entries::raw_tag(tree::run_at(items, i)) == Ok::<(Seq<u8>, Run), Error>(
            (joined(items.subrange(i, i + n)), tree::run_at(items, i + n - 1)),
        ),
    decreases n,
{
    let chunks = items.subrange(i, i + n);
    lemma_run_at(items, i);
    assert(items[i].last == (n == 1));
    assert(chunks.drop_first() =~= items.subrange(i + 1, i + n));
    if n > 1 {
        law_chunks_joined(items, i + 1, n - 1);
    } else {
        assert(joined(chunks.drop_first()) =~= Seq::<u8>::empty());
        assert(joined(chunks) =~= items[i].chunk);
    }
}

/// Looking up a key in a well-formed table gives back the bytes that its chunks hold, or
/// what they decompress to.
pub proof fn law_lookup_returns_stored(t: TableSpec, key: Seq<u8>, i: int, n: int)
    requires
        tree::table_ok(t),
        !t.root_is_fake,
        0 < key.len() <= 255,
        tree::is_first_of(tree::items_of(t), key, i),
        one_tag(tree::items_of(t), i, n),
    ensures
        entries::entry_of(t, key) == (match inflate::unpacked(
            joined(tree::items_of(t).subrange(i, i + n)),
            tree::items_of(t)[i].compressed,
        ) {
            Ok(tag) => Ok(Some(tag)),
            Err(e) => Err(e),
        }),
{
    law_lookup(t, key, i);
    law_chunks_joined(tree::items_of(t), i, n);
    lemma_run_at(tree::items_of(t), i);
}

proof fn lemma_dump(items: Seq<Leaf>, i: int, limit: nat)
    requires
        0 <= i < items.len(),
    ensures
        entries::dump_of(tree::run_at(items, i), limit) == Ok::<Seq<Leaf>, Error>(
            if i + limit <= items.len() {
                items.subrange(i, i + limit)
            } else {
                items.skip(i)
            },
        ),
    decreases items.len() - i,
{
    lemma_run_at(items, i);
    if limit == 0 {
        assert(items.subrange(i, i) =~= Seq::<Leaf>::empty());
    } else if limit == 1 {
        assert(items.subrange(i, i + 1) =~= seq![items[i]]);
    } else if i + 1 < items.len() {
        lemma_dump(items, i + 1, (limit - 1) as nat);
        if i + limit <= items.len() {
            assert(items.subrange(i, i + limit) =~= seq![items[i]] + items.subrange(
                i + 1,
                i + limit,
            ));
        } else {
            assert(items.skip(i) =~= seq![items[i]] + items.skip(i + 1));
        }
    } else {
        assert(items.skip(i) =~= seq![items[i]]);
    }
}

/// Dumping a well-formed table lists its first items, in order: `limit` of them, or all
/// where there are fewer.
pub proof fn law_dump_lists_items(t: TableSpec, limit: nat)
    requires
        tree::table_ok(t),
    ensures
        table::leftmost(t, t.root, t.level) matches Ok(pos) && entries::dump_of(
            table::run_from(t, pos),
            limit,
        ) == Ok::<Seq<Leaf>, Error>(
            tree::items_of(t).take(
                if limit <= tree::items_of(t).len() {
                    limit as int
                } else {
                    tree::items_of(t).len() as int
                },
            ),
        ),
{
    let items = tree::items_of(t);
    tree::law_walk(t);
    lemma_dump(items, 0, limit);
    assert(items.subrange(0, items.len() as int) =~= items);
    assert(items.skip(0) =~= items);
    assert(items.take(items.len() as int) =~= items);
    if limit <= items.len() {
        assert(items.subrange(0, limit as int) =~= items.take(limit as int));
    }
}

/// The first `limit` of the items that are first chunks, or all where there are fewer.
pub open spec fn first_ones(items: Seq<Leaf>, limit: nat) -> Seq<Leaf> {
    let firsts = items.filter(|x: Leaf| x.first);
    if limit <= firsts.len() {
        firsts.take(limit as int)
    } else {
        firsts
    }
}

#[verifier::spinoff_prover]
#[verifier::rlimit(60)]
proof fn lemma_first_chunks(items: Seq<Leaf>, i: int, limit: nat)
    requires
        0 <= i < items.len(),
    ensures
        entries::first_chunks(tree::run_at(items, i), limit) == Ok::<Seq<Leaf>, Error>(
            first_ones(items.skip(i), limit),
        ),
    decreases items.len() - i,
{
    let pred = |x: Leaf| x.first;
    lemma_run_at(items, i);
    let here = if items[i].first {
        seq![items[i]]
    } else {
        Seq::empty()
    };
    let firsts = items.skip(i).filter(pred);
    let later = items.skip(i + 1).filter(pred);
    assert(items.skip(i) =~= seq![items[i]] + items.skip(i + 1));
    Seq::filter_distributes_over_add(seq![items[i]], items.skip(i + 1), pred);
    assert(seq![items[i]].filter(pred) =~= here) by {
        reveal(Seq::filter);
        assert(seq![items[i]].drop_last() =~= Seq::<Leaf>::empty());
        assert(Seq::<Leaf>::empty().filter(pred) =~= Seq::<Leaf>::empty());
    }
    assert(firsts == here + later);
    if limit > 0 {
        let left = (limit - here.len()) as nat;
        if i + 1 < items.len() {
            if left > 0 {
                lemma_first_chunks(items, i + 1, left);
                assert(first_ones(items.skip(i), limit) =~= here + first_ones(
                    items.skip(i + 1),
                    left,
                ));
            } else {
                assert(first_ones(items.skip(i), limit) =~= here);
            }
        } else {
            assert(items.skip(i + 1) =~= Seq::<Leaf>::empty());
            assert(later =~= Seq::<Leaf>::empty()) by {
                reveal(Seq::filter);
            }
            assert(first_ones(items.skip(i), limit) =~= here);
        }
    } else {
        assert(first_ones(items.skip(i), limit) =~= Seq::<Leaf>::empty());
    }
}

/// Item `m` is the first at or behind the first chunk under `key`; the number of items
/// stands for none.
pub open spec fn first_from(items: Seq<Leaf>, key: Seq<u8>, m: int) -> bool {
    &&& 0 <= m <= items.len()
    &&& forall|x: int|
        0 <= x < m ==> tree::precedes((#[trigger] items[x]).key, items[x].component, key, 1)
    &&& forall|x: int|
        m <= x < items.len() ==> !tree::precedes(
            (#[trigger] items[x]).key,
            items[x].component,
            key,
            1,
        )
}

proof fn lemma_first_from(items: Seq<Leaf>, key: Seq<u8>, r: int, m: int)
    requires
        tree::sorted(items),
        tree::last_upto(items, key, r),
        first_from(items, key, m),
    ensures
        m == (if tree::is_first_of(items, key, r) {
            r
        } else {
            r + 1
        }),
{
    tree::law_order_irreflexive(key, 1);
    if r >= 0 {
        tree::law_order_total(items[r].key, items[r].component, key, 1);
    }
    if r + 1 < items.len() {
        tree::law_order_total(items[r + 1].key, items[r + 1].component, key, 1);
    }
    if tree::is_first_of(items, key, r) {
        if m < r {
            assert(tree::precedes(
                items[m].key,
                items[m].component,
                items[r].key,
                items[r].component,
            ));
        } else if m > r {
            assert(tree::precedes(items[r].key, items[r].component, key, 1));
        }
    } else if m <= r {
        tree::law_order_total(items[m].key, items[m].component, key, 1);
        assert(!tree::precedes(key, 1, items[m].key, items[m].component));
        assert(items[m].key == key && items[m].component == 1);
        if m < r {
            assert(tree::precedes(
                items[m].key,
                items[m].component,
                items[r].key,
                items[r].component,
            ));
        }
    } else if m > r + 1 {
        assert(tree::precedes(items[r + 1].key, items[r + 1].component, key, 1));
        assert(tree::precedes(key, 1, items[r + 1].key, items[r + 1].component));
    }
}

/// Dumping a well-formed table from `start` lists the first chunks, in order, from the
/// first key at or behind `start` on: `limit` of them, or all where there are fewer.
pub proof fn law_dump_from_lists_items(t: TableSpec, start: Seq<u8>, limit: nat, m: int)
    requires
        tree::table_ok(t),
        !t.root_is_fake,
        first_from(tree::items_of(t), start, m),
    ensures
        entries::keys_from(t, start, limit) == Ok::<Seq<Leaf>, Error>(
            first_ones(tree::items_of(t).skip(m), limit),
        ),
{
    let items = tree::items_of(t);
    let r = tree::law_search(t, start);
    lemma_first_from(items, start, r, m);
    if m < items.len() {
        lemma_first_chunks(items, m, limit);
    } else {
        assert(items.skip(m) =~= Seq::<Leaf>::empty());
        assert(first_ones(items.skip(m), limit) =~= Seq::<Leaf>::empty()) by {
            reveal(Seq::filter);
        }
    }
}

/// There is a first item at or behind a searched chunk, next to the last one at or before
/// it.
proof fn lemma_first_from_last(items: Seq<Leaf>, key: Seq<u8>, r: int) -> (m: int)
    requires
        tree::sorted(items),
        tree::last_upto(items, key, r),
    ensures
        first_from(items, key, m),
{
    let m = if tree::is_first_of(items, key, r) {
        r
    } else {
        r + 1
    };
    assert forall|x: int| 0 <= x < m implies tree::precedes(
        (#[trigger] items[x]).key,
        items[x].component,
        key,
        1,
    ) by {
        tree::law_order_total(items[x].key, items[x].component, key, 1);
        if x < r {
            assert(tree::precedes(
                items[x].key,
                items[x].component,
                items[r].key,
                items[r].component,
            ));
            tree::law_order_total(items[r].key, items[r].component, key, 1);
            tree::law_order_irreflexive(key, 1);
        }
    }
    assert forall|x: int| m <= x < items.len() implies !tree::precedes(
        (#[trigger] items[x]).key,
        items[x].component,
        key,
        1,
    ) by {
        tree::law_order_total(items[x].key, items[x].component, key, 1);
        tree::law_order_irreflexive(key, 1);
    }
    m
}

proof fn lemma_no_firsts(items: Seq<Leaf>)
    requires
        forall|x: int| 0 <= x < items.len() ==> !(#[trigger] items[x]).first,
    ensures
        items.filter(|x: Leaf| x.first) == Seq::<Leaf>::empty(),
    decreases items.len(),
{
    reveal(Seq::filter);
    if items.len() > 0 {
        lemma_no_firsts(items.drop_last());
        assert(!items[items.len() - 1].first);
    }
}

/// Dumping a well-formed table from the empty key lists, in order, the first chunks among
/// all its items: among those that a dump without a limit in the way lists.
pub proof fn law_dump_from_start(t: TableSpec, n: nat, limit: nat)
    requires
        tree::table_ok(t),
        !t.root_is_fake,
        tree::items_of(t).len() <= limit,
    ensures
        entries::keys_from(t, Seq::empty(), n) == Ok::<Seq<Leaf>, Error>(
            first_ones(tree::items_of(t), n),
        ),
        table::leftmost(t, t.root, t.level) matches Ok(pos) && {
            &&& entries::dump_of(table::run_from(t, pos), limit) matches Ok(all)
                && entries::keys_from(t, Seq::empty(), n) == Ok::<Seq<Leaf>, Error>(
                first_ones(all, n),
            )
        },
{
    let items = tree::items_of(t);
    let none = Seq::<u8>::empty();
    let pred = |x: Leaf| x.first;
    let r = tree::law_search(t, none);
    let m = lemma_first_from_last(items, none, r);
    law_dump_from_lists_items(t, none, n, m);
    law_dump_lists_items(t, limit);
    assert(items.take(items.len() as int) =~= items);
    tree::lemma_first_chunks_numbered(t, t.root, t.level);
    assert forall|x: int| 0 <= x < m implies !(#[trigger] items.take(m)[x]).first by {
        assert(tree::precedes(items[x].key, items[x].component, none, 1));
    }
    lemma_no_firsts(items.take(m));
    assert(items =~= items.take(m) + items.skip(m));
    Seq::filter_distributes_over_add(items.take(m), items.skip(m), pred);
    assert(items.filter(pred) =~= items.skip(m).filter(pred));
}

/// A table of one leaf block whose directory is empty has no entry and no posting list.
pub proof fn law_empty_table(t: TableSpec, key: Seq<u8>)
    requires
        t.level == 0,
        table::block_at(t, t.root) matches Some(d) && d.len() >= 11 && block::dir_end(d) == 11,
    ensures
        entries::entry_of(t, key) == Ok::<Option<Seq<u8>>, Error>(None),
        postlist::postlist_of(t, key) == Ok::<Option<PostlistSpec>, Error>(None),
{
}

/// The items behind the start of a run hold the given chunks of a term's list, one
/// behind the other, the last of them marked as the last.
pub open spec fn holds_chunks(term: Seq<u8>, run: Run, lists: Seq<Seq<(u64, u32)>>) -> bool
    decreases lists.len(),
{
    if lists.len() == 0 {
        true
    } else {
        let next = run.rest();
        &&& run.items.len() > 1
        &&& lists[0].len() > 0
        &&& list_laws::ascending(lists[0])
        &&& next.items[0] matches Some(item) && item.key == list_laws::chunk_key(
            term,
            lists[0][0].0,
        )
        &&& entries::tag_of(next) matches Ok((tag, end)) && {
            &&& tag == list_laws::packed_body(lists.len() == 1, lists[0])
            &&& holds_chunks(term, end, lists.drop_first())
        }
    }
}

/// Lists joined one behind the other.
pub open spec fn flat(lists: Seq<Seq<(u64, u32)>>) -> Seq<(u64, u32)>
    decreases lists.len(),
{
    if lists.len() == 0 {
        Seq::empty()
    } else {
        lists[0] + flat(lists.drop_first())
    }
}

proof fn lemma_further(term: Seq<u8>, run: Run, lists: Seq<Seq<(u64, u32)>>)
    requires
        lists.len() > 0,
        holds_chunks(term, run, lists),
    ensures
        postlist::further(postlist::list_key(term), term.len() > 0, run) == Ok::<
            Seq<(u64, u32)>,
            Error,
        >(flat(lists)),
    decreases lists.len(),
{
    let next = run.rest();
    let (tag, end) = entries::tag_of(next).unwrap();
    let none = Seq::<u8>::empty();
    let rest = lists.drop_first();
    list_laws::law_chunk_key_round_trip(term, lists[0][0].0);
    list_laws::law_chunk_round_trip(none, lists.len() == 1, lists[0]);
    assert(none + tag =~= tag);
    if lists.len() > 1 {
        lemma_further(term, end, rest);
    } else {
        assert(flat(lists) =~= lists[0]) by {
            assert(flat(rest) =~= Seq::<(u64, u32)>::empty());
        }
    }
}

/// Reading a term's posting list from a well-formed table gives back the statistics and
/// all the postings that its chunks were packed from.
pub proof fn law_postlist_returns_stored(
    t: TableSpec,
    term: Seq<u8>,
    termfreq: u64,
    collfreq: u64,
    lists: Seq<Seq<(u64, u32)>>,
    i: int,
)
    requires
        tree::table_ok(t),
        tree::is_first_of(tree::items_of(t), postlist::list_key(term), i),
        lists.len() > 0,
        lists[0].len() > 0,
        list_laws::ascending(lists[0]),
        lists[0][0].0 >= 1,
        entries::tag_of(tree::run_at(tree::items_of(t), i)) matches Ok((tag, end)) && tag
            == list_laws::packed_first(termfreq, collfreq, lists.len() == 1, lists[0])
            && holds_chunks(term, end, lists.drop_first()),
    ensures
        postlist::postlist_of(t, term) == Ok::<Option<PostlistSpec>, Error>(
            Some(PostlistSpec { termfreq, collfreq, postings: flat(lists) }),
        ),
{
    let items = tree::items_of(t);
    let key = postlist::list_key(term);
    let r = tree::law_search(t, key);
    lemma_first_unique(items, key, r, i);
    let (tag, end) = entries::tag_of(tree::run_at(items, i)).unwrap();
    list_laws::law_first_chunk_round_trip(termfreq, collfreq, lists.len() == 1, lists[0]);
    if lists.len() > 1 {
        lemma_further(term, end, lists.drop_first());
    } else {
        assert(flat(lists.drop_first()) =~= Seq::<(u64, u32)>::empty());
        assert(flat(lists) =~= lists[0]);
    }
}

/// A well-formed table without a term's first chunk has no posting list for the term.
pub proof fn law_postlist_missing(t: TableSpec, term: Seq<u8>)
    requires
        tree::table_ok(t),
        forall|i: int| !tree::is_first_of(tree::items_of(t), postlist::list_key(term), i),
    ensures
        postlist::postlist_of(t, term) == Ok::<Option<PostlistSpec>, Error>(None),
{
    let r = tree::law_search(t, postlist::list_key(term));
    assert(!tree::is_first_of(tree::items_of(t), postlist::list_key(term), r));
}

// The same in plain sequence operations.

/// A posting list table stores a term's list, in the given chunks: item `i` is the first
/// chunk under the list's key, and the chunks behind it follow one another.
pub open spec fn stores_list(
    t: TableSpec,
    term: Seq<u8>,
    termfreq: u64,
    collfreq: u64,
    lists: Seq<Seq<(u64, u32)>>,
    i: int,
) -> bool {
    &&& tree::table_ok(t)
    &&& tree::is_first_of(tree::items_of(t), postlist::list_key(term), i)
    &&& lists.len() > 0
    &&& lists[0].len() > 0
    &&& list_laws::ascending(lists[0])
    &&& lists[0][0].0 >= 1
    &&& entries::tag_of(tree::run_at(tree::items_of(t), i)) matches Ok((tag, end)) && tag
        == list_laws::packed_first(termfreq, collfreq, lists.len() == 1, lists[0]) && holds_chunks(
        term,
        end,
        lists.drop_first(),
    )
}

proof fn lemma_flat(lists: Seq<Seq<(u64, u32)>>)
    ensures
        flat(lists) == lists.flatten(),
    decreases lists.len(),
{
    if lists.len() > 0 {
        lemma_flat(lists.drop_first());
    }
}

/// A stored posting list is read back whole: its statistics, and the postings of all its
/// chunks one behind the other.
pub proof fn law_stored_list(
    t: TableSpec,
    term: Seq<u8>,
    termfreq: u64,
    collfreq: u64,
    lists: Seq<Seq<(u64, u32)>>,
    i: int,
)
    requires
        stores_list(t, term, termfreq, collfreq, lists, i),
    ensures
        postlist::postlist_of(t, term) == Ok::<Option<PostlistSpec>, Error>(
            Some(PostlistSpec { termfreq, collfreq, postings: lists.flatten() }),
        ),
{
    law_postlist_returns_stored(t, term, termfreq, collfreq, lists, i);
    lemma_flat(lists);
}

proof fn lemma_joined(chunks: Seq<Leaf>)
    ensures
        joined(chunks) == chunks.map_values(|x: Leaf| x.chunk).flatten(),
    decreases chunks.len(),
{
    let f = |x: Leaf| x.chunk;
    if chunks.len() > 0 {
        lemma_joined(chunks.drop_first());
        assert(chunks.map_values(f).drop_first() =~= chunks.drop_first().map_values(f));
    }
}

/// A tag is made of all its chunks, one behind the other: as they are where the first is
/// not marked as compressed, or what flate2 makes of them where it is. Reading it ends on
/// its last chunk.
pub proof fn law_tag(items: Seq<Leaf>, i: int, n: int)
    requires
        one_tag(items, i, n),
    ensures
        ({
            let raw = items.subrange(i, i + n).map_values(|x: Leaf| x.chunk).flatten();
            let end = tree::run_at(items, i + n - 1);
            entries::tag_of(tree::run_at(items, i)) == (if !items[i].compressed {
                Ok((raw, end))
            } else {
                match inflate::inflated(raw) {
                    Ok(tag) => Ok((tag, end)),
                    Err(true) => Err(Error::DeflateIncomplete),
                    Err(false) => Err(Error::DeflateCorrupt),
                }
            })
        }),
{
    law_chunks_joined(items, i, n);
    lemma_joined(items.subrange(i, i + n));
    lemma_run_at(items, i);
}

/// Looking up a key gives back all the bytes that its chunks hold, where they are not
/// compressed.
pub proof fn law_plain_tag_returned(t: TableSpec, key: Seq<u8>, i: int, n: int)
    requires
        tree::table_ok(t),
        !t.root_is_fake,
        0 < key.len() <= 255,
        tree::is_first_of(tree::items_of(t), key, i),
        one_tag(tree::items_of(t), i, n),
        !tree::items_of(t)[i].compressed,
    ensures
        entries::entry_of(t, key) == Ok::<Option<Seq<u8>>, Error>(
            Some(tree::items_of(t).subrange(i, i + n).map_values(|x: Leaf| x.chunk).flatten()),
        ),
{
    law_lookup(t, key, i);
    law_tag(tree::items_of(t), i, n);
}

/// Looking up a key whose chunks are compressed gives what flate2 makes of them, joined.
pub proof fn law_compressed_tag_returned(t: TableSpec, key: Seq<u8>, i: int, n: int)
    requires
        tree::table_ok(t),
        !t.root_is_fake,
        0 < key.len() <= 255,
        tree::is_first_of(tree::items_of(t), key, i),
        one_tag(tree::items_of(t), i, n),
        tree::items_of(t)[i].compressed,
    ensures
        entries::entry_of(t, key) == (match inflate::inflated(
            tree::items_of(t).subrange(i, i + n).map_values(|x: Leaf| x.chunk).flatten(),
        ) {
            Ok(tag) => Ok(Some(tag)),
            Err(true) => Err(Error::DeflateIncomplete),
            Err(false) => Err(Error::DeflateCorrupt),
        }),
{
    law_lookup(t, key, i);
    law_tag(tree::items_of(t), i, n);
}

/// Dumping from `start` lists, in order, the first chunks among the items at or behind the
/// first chunk under `start`: `limit` of them, or all where there are fewer.
pub proof fn law_dump_from_rows(t: TableSpec, start: Seq<u8>, limit: nat, m: int)
    requires
        tree::table_ok(t),
        !t.root_is_fake,
        first_from(tree::items_of(t), start, m),
    ensures
        ({
            let firsts = tree::items_of(t).skip(m).filter(|x: Leaf| x.first);
            entries::keys_from(t, start, limit) == Ok::<Seq<Leaf>, Error>(
                if limit <= firsts.len() {
                    firsts.take(limit as int)
                } else {
                    firsts
                },
            )
        }),
{
    law_dump_from_lists_items(t, start, limit, m);
}

/// A dumped row shows all of its item: key, chunk length, flags and chunk number.
pub proof fn law_row(row: entries::KeyRow, item: Leaf)
    requires
        entries::shows(row, item),
    ensures
        row.0@ == item.key,
        row.1 == item.chunk.len(),
        row.2 == item.compressed,
        row.3 == item.first,
        row.4 == item.last,
        row.5 == item.component,
{
}

/// A posting list that is not marked as ended ends with the table, or before the first key
/// that is not one of its further chunks.
pub proof fn law_list_ends(prefix: Seq<u8>, separated: bool, run: Run)
    requires
        run.items.len() == 1 && run.stop is None || run.items.len() > 1 && (run.items[1] matches Some(
            item,
        ) && (item.key.len() < prefix.len() || item.key.take(prefix.len() as int) != prefix || (
        separated && (item.key.len() == prefix.len() || item.key[prefix.len() as int] != 0)))),
    ensures
        postlist::further(prefix, separated, run) == Ok::<Seq<(u64, u32)>, Error>(Seq::empty()),
{
    if run.items.len() > 1 {
        assert(run.rest().items[0] == run.items[1]);
    }
}

/// A further chunk adds its postings. One marked as the last ends the list; behind any other
/// the list goes on.
pub proof fn law_chunk_added(
    term: Seq<u8>,
    run: Run,
    last: bool,
    list: Seq<(u64, u32)>,
    end: Run,
    more: Seq<(u64, u32)>,
)
    requires
        run.items.len() > 1,
        list.len() > 0,
        list_laws::ascending(list),
        run.items[1] matches Some(item) && item.key == list_laws::chunk_key(term, list[0].0),
        entries::tag_of(run.rest()) == Ok::<(Seq<u8>, Run), Error>(
            (list_laws::packed_body(last, list), end),
        ),
        !last ==> postlist::further(postlist::list_key(term), term.len() > 0, end) == Ok::<
            Seq<(u64, u32)>,
            Error,
        >(more),
    ensures
        postlist::further(postlist::list_key(term), term.len() > 0, run) == Ok::<
            Seq<(u64, u32)>,
            Error,
        >(
            if last {
                list
            } else {
                list + more
            },
        ),
{
    let none = Seq::<u8>::empty();
    let tag = list_laws::packed_body(last, list);
    list_laws::law_chunk_key_round_trip(term, list[0].0);
    list_laws::law_chunk_round_trip(none, last, list);
    assert(none + tag =~= tag);
    assert(run.rest().items[0] == run.items[1]);
}

/// A posting list starts with the postings of its first chunk, and goes on with those of the
/// further chunks where that chunk is not marked as the last.
pub proof fn law_list_started(
    t: TableSpec,
    term: Seq<u8>,
    i: int,
    termfreq: u64,
    collfreq: u64,
    last: bool,
    list: Seq<(u64, u32)>,
    end: Run,
    more: Seq<(u64, u32)>,
)
    requires
        tree::table_ok(t),
        tree::is_first_of(tree::items_of(t), postlist::list_key(term), i),
        list.len() > 0,
        list_laws::ascending(list),
        list[0].0 >= 1,
        entries::tag_of(tree::run_at(tree::items_of(t), i)) == Ok::<(Seq<u8>, Run), Error>(
            (list_laws::packed_first(termfreq, collfreq, last, list), end),
        ),
        !last ==> postlist::further(postlist::list_key(term), term.len() > 0, end) == Ok::<
            Seq<(u64, u32)>,
            Error,
        >(more),
    ensures
        postlist::postlist_of(t, term) == Ok::<Option<PostlistSpec>, Error>(
            Some(
                PostlistSpec {
                    termfreq,
                    collfreq,
                    postings: if last {
                        list
                    } else {
                        list + more
                    },
                },
            ),
        ),
{
    let items = tree::items_of(t);
    let key = postlist::list_key(term);
    let r = tree::law_search(t, key);
    lemma_first_unique(items, key, r, i);
    list_laws::law_first_chunk_round_trip(termfreq, collfreq, last, list);
}

/// A tag without a last chunk is reported as cut short by the end of its table.
pub proof fn law_tag_cut(items: Seq<Leaf>, i: int)
    requires
        0 <= i < items.len(),
        forall|k: int| i <= k < items.len() ==> !(#[trigger] items[k]).last,
    ensures
        entries::tag_of(tree::run_at(items, i)) == Err::<(Seq<u8>, Run), Error>(
            Error::TagTruncated,
        ),
{
    lemma_raw_cut(items, i);
}

proof fn lemma_raw_cut(items: Seq<Leaf>, i: int)
    requires
        0 <= i < items.len(),
        forall|k: int| i <= k < items.len() ==> !(#[trigger] items[k]).last,
    ensures
        entries::raw_tag(tree::run_at(items, i)) == Err::<(Seq<u8>, Run), Error>(
            Error::TagTruncated,
        ),
    decreases items.len() - i,
{
    lemma_run_at(items, i);
    assert(!items[i].last);
    if i + 1 < items.len() {
        lemma_raw_cut(items, i + 1);
    }
}

} // verus!
