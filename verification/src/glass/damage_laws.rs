//! What comes of data that is cut short or does not hang together.

use crate::bytes;
use crate::error::Error;
use crate::glass::block;
use crate::glass::block::Leaf;
use crate::glass::entries;
use crate::glass::format_laws;
use crate::glass::postlist;
use crate::glass::postlist::{Entries, PostlistSpec};
use crate::glass::sortable;
use crate::glass::table;
use crate::glass::table::{Run, Slot, TableSpec};
use crate::glass::varint;
use crate::glass::version;
use crate::glass::version::{RootInfo, VersionSpec};
use crate::glass::version_laws;
use vstd::prelude::*;

verus! {

// Numbers.

/// Reading an order-preserving number consumes the number, the leading byte alone where that
/// is 0xff, and all that is left where the number is cut short.
pub proof fn law_sortable_consumed(buf: Seq<u8>, pos: int)
    requires
        0 <= pos,
    ensures
        pos >= buf.len() ==> sortable::sortable_end(buf, pos) == pos,
        pos < buf.len() && buf[pos] == 0xff ==> sortable::sortable_end(buf, pos) == pos + 1,
        pos < buf.len() && buf[pos] < 0x80 ==> sortable::sortable_end(buf, pos) == (if pos + 2
            <= buf.len() {
            pos + 2
        } else {
            buf.len() as int
        }),
        pos < buf.len() && 0x80 <= buf[pos] < 0xff ==> sortable::sortable_end(buf, pos) == (
        match sortable::sortable_at(buf, pos) {
            Some((_, end)) => end,
            None => buf.len() as int,
        }),
{
}

// Items.

/// A leaf item lies where its slot says, with as many bytes as its size says, and is read
/// exactly where these lie inside the block and leave room for key and chunk number. Its
/// flags are, from the top, whether it is compressed, the last chunk and the first chunk.
pub proof fn law_leaf_bytes(d: Seq<u8>, c: int)
    requires
        0 <= c,
        c + 2 <= d.len(),
        256 * d[c] + d[c + 1] + 3 <= d.len(),
    ensures
        ({
            let off = 256 * d[c] + d[c + 1];
            let size = 256 * (d[off] % 32) + d[off + 1];
            let first = (d[off] / 32) % 2 == 1;
            let number: int = if first {
                0
            } else {
                2
            };
            let key_end = off + 3 + d[off + 2];
            if off + 3 + size <= d.len() && d[off + 2] + number <= size {
                block::leaf_at(d, c) matches Some(item) && {
                    &&& item.key == d.subrange(off + 3, key_end)
                    &&& item.first == first
                    &&& item.last == ((d[off] / 64) % 2 == 1)
                    &&& item.compressed == (d[off] >= 128)
                    &&& item.component == (if first {
                        1
                    } else {
                        256 * d[key_end] + d[key_end + 1]
                    })
                    &&& item.chunk == d.subrange(key_end + number, off + 3 + size)
                }
            } else {
                block::leaf_at(d, c) is None
            }
        }),
{
    bytes::law_big_endian(d, c);
    let off = 256 * d[c] + d[c + 1];
    bytes::law_big_endian(d, off);
    bytes::law_big_endian(d, off + 3 + d[off + 2]);
    assert(bytes::be16(d, off) % 8192 == 256 * (d[off] % 32) + d[off + 1]);
}

/// A branch item is read exactly where it lies inside the block: its child where the four
/// bytes of that do, its key where all of it does.
pub proof fn law_branch_bytes(d: Seq<u8>, c: int)
    requires
        0 <= c,
        c + 2 <= d.len(),
    ensures
        ({
            let off = 256 * d[c] + d[c + 1];
            let key_end = off + 5 + d[off + 4];
            &&& block::child_at(d, c) == (if off + 4 <= d.len() {
                Some(
                    (0x100_0000 * d[off] + 0x1_0000 * d[off + 1] + 0x100 * d[off + 2] + d[off
                        + 3]) as u64,
                )
            } else {
                None
            })
            &&& block::branch_at(d, c) == (if off + 5 <= d.len() && key_end + 2 <= d.len() {
                Some((d.subrange(off + 5, key_end), 256 * d[key_end] + d[key_end + 1]))
            } else {
                None
            })
        }),
{
    bytes::law_big_endian(d, c);
    let off = 256 * d[c] + d[c + 1];
    bytes::law_big_endian(d, off);
    bytes::law_big_endian(d, off + 5 + d[off + 4]);
}

// Walking.

/// A child block that is out of range stops a descent to it.
pub proof fn law_child_outside(t: TableSpec, key: Seq<u8>, n: u64, j: nat, d: Seq<u8>, c: int, child: u64)
    requires
        j > 0,
        table::block_at(t, n) == Some(d),
        d.len() >= 11,
        block::child_at(d, c) == Some(child),
        t.base + (child + 1) * t.block_size > t.file.len(),
    ensures
        block::chop(d, key, 11, 256 * d[9] + d[10], false) matches Some((slot, _)) && slot == c
            ==> table::descend(t, key, n, j) == Err::<(Seq<Slot>, bool), Error>(
            Error::BlockOutOfRange { block: child, table: t.name },
        ),
        c == 11 ==> table::leftmost(t, n, j) == Err::<Seq<Slot>, Error>(
            Error::BlockOutOfRange { block: child, table: t.name },
        ),
{
    bytes::law_big_endian(d, 9);
    assert((child + 1) * t.block_size == child * t.block_size + t.block_size) by (nonlinear_arith);
    assert(table::block_at(t, child) is None);
    assert(table::descend(t, key, child, (j - 1) as nat) == Err::<(Seq<Slot>, bool), Error>(
        Error::BlockOutOfRange { block: child, table: t.name },
    ));
    assert(table::leftmost(t, child, (j - 1) as nat) == Err::<Seq<Slot>, Error>(
        Error::BlockOutOfRange { block: child, table: t.name },
    ));
}

/// Inside a leaf block the next position is the next slot, and behind the last slot of a
/// table's only block there is none.
pub proof fn law_next_slot(t: TableSpec, pos: Seq<Slot>, d: Seq<u8>)
    requires
        pos.len() > 0,
        table::block_at(t, pos[0].n) == Some(d),
        d.len() >= 11,
    ensures
        pos[0].c + 2 < 256 * d[9] + d[10] ==> table::advance(t, pos, 0) == Ok::<
            Option<Seq<Slot>>,
            Error,
        >(Some(pos.update(0, Slot { n: pos[0].n, c: pos[0].c + 2 }))),
        pos.len() == 1 && pos[0].c + 2 >= 256 * d[9] + d[10] ==> table::advance(t, pos, 0) == Ok::<
            Option<Seq<Slot>>,
            Error,
        >(None),
{
    bytes::law_big_endian(d, 9);
    if pos.len() == 1 {
        assert(table::advance(t, pos, 1) == Ok::<Option<Seq<Slot>>, Error>(None));
    }
}

// Tags and dumps.

/// A run of readable items.
pub open spec fn readable(run: Run, items: Seq<Leaf>) -> bool {
    &&& run.items.len() == items.len()
    &&& forall|k: int| 0 <= k < items.len() ==> #[trigger] run.items[k] == Some(items[k])
}

proof fn lemma_rest(run: Run, items: Seq<Leaf>)
    requires
        readable(run, items),
        items.len() > 0,
    ensures
        readable(run.rest(), items.drop_first()),
        run.items[0] == Some(items[0]),
{
    assert forall|k: int| 0 <= k < items.len() - 1 implies #[trigger] run.rest().items[k] == Some(
        items.drop_first()[k],
    ) by {
        assert(run.items[k + 1] == Some(items[k + 1]));
    }
}

/// A tag whose last chunk is not reached fails with what stopped the walk.
pub proof fn law_tag_stopped(run: Run, items: Seq<Leaf>, e: Error)
    requires
        readable(run, items),
        items.len() > 0,
        forall|k: int| 0 <= k < items.len() ==> !(#[trigger] items[k]).last,
        run.stop == Some(e),
    ensures
        entries::tag_of(run) == Err::<(Seq<u8>, Run), Error>(e),
{
    lemma_tag_stopped(run, items, e);
}

proof fn lemma_tag_stopped(run: Run, items: Seq<Leaf>, e: Error)
    requires
        readable(run, items),
        items.len() > 0,
        forall|k: int| 0 <= k < items.len() ==> !(#[trigger] items[k]).last,
        run.stop == Some(e),
    ensures
        entries::raw_tag(run) == Err::<(Seq<u8>, Run), Error>(e),
    decreases items.len(),
{
    lemma_rest(run, items);
    assert(!items[0].last);
    if items.len() > 1 {
        let rest = items.drop_first();
        assert forall|k: int| 0 <= k < rest.len() implies !(#[trigger] rest[k]).last by {
            assert(rest[k] == items[k + 1]);
        }
        lemma_tag_stopped(run.rest(), rest, e);
    }
}

/// A dump of more items than a walk reaches fails with what stopped the walk, and one of no
/// more than it reaches does not notice.
pub proof fn law_dump_stopped(run: Run, items: Seq<Leaf>, limit: nat, e: Error)
    requires
        readable(run, items),
        items.len() > 0,
        run.stop == Some(e),
    ensures
        entries::dump_of(run, limit) == (if limit <= items.len() {
            Ok::<Seq<Leaf>, Error>(items.take(limit as int))
        } else {
            Err::<Seq<Leaf>, Error>(e)
        }),
    decreases items.len(),
{
    lemma_rest(run, items);
    if limit == 0 {
        assert(items.take(0) =~= Seq::<Leaf>::empty());
    } else if limit == 1 {
        assert(items.take(1) =~= seq![items[0]]);
    } else if items.len() > 1 {
        let rest = items.drop_first();
        law_dump_stopped(run.rest(), rest, (limit - 1) as nat, e);
        if limit <= items.len() {
            assert(items.take(limit as int) =~= seq![items[0]] + rest.take(limit - 1));
        }
    }
}

/// An item that cannot be read makes a dump that reaches it fail.
pub proof fn law_dump_unreadable(run: Run, limit: nat, k: int)
    requires
        0 <= k < run.items.len(),
        k < limit,
        run.items[k] is None,
        forall|i: int| 0 <= i < k ==> (#[trigger] run.items[i]) is Some,
    ensures
        entries::dump_of(run, limit) == Err::<Seq<Leaf>, Error>(Error::Malformed),
    decreases k,
{
    if k > 0 {
        assert(run.items[0] is Some);
        assert(run.rest().items[k - 1] == run.items[k]);
        assert forall|i: int| 0 <= i < k - 1 implies (#[trigger] run.rest().items[i]) is Some by {
            assert(run.rest().items[i] == run.items[i + 1]);
        }
        law_dump_unreadable(run.rest(), (limit - 1) as nat, k - 1);
    }
}

/// A dump of more first chunks than a walk reaches fails with what stopped the walk, and one
/// of no more than it reaches does not notice.
pub proof fn law_first_chunks_stopped(run: Run, items: Seq<Leaf>, limit: nat, e: Error)
    requires
        readable(run, items),
        items.len() > 0,
        run.stop == Some(e),
    ensures
        ({
            let firsts = items.filter(|x: Leaf| x.first);
            entries::first_chunks(run, limit) == (if limit <= firsts.len() {
                Ok::<Seq<Leaf>, Error>(firsts.take(limit as int))
            } else {
                Err::<Seq<Leaf>, Error>(e)
            })
        }),
    decreases items.len(),
{
    let pred = |x: Leaf| x.first;
    let firsts = items.filter(pred);
    lemma_rest(run, items);
    let rest = items.drop_first();
    let here = if items[0].first {
        seq![items[0]]
    } else {
        Seq::empty()
    };
    assert(firsts == here + rest.filter(pred)) by {
        assert(items =~= seq![items[0]] + rest);
        Seq::filter_distributes_over_add(seq![items[0]], rest, pred);
        assert(seq![items[0]].filter(pred) =~= here) by {
            reveal(Seq::filter);
            assert(seq![items[0]].drop_last() =~= Seq::<Leaf>::empty());
            assert(Seq::<Leaf>::empty().filter(pred) =~= Seq::<Leaf>::empty());
        }
    }
    if limit == 0 {
        assert(firsts.take(0) =~= Seq::<Leaf>::empty());
    } else {
        let left = (limit - here.len()) as nat;
        if left == 0 {
            assert(firsts.take(limit as int) =~= here);
        } else if items.len() > 1 {
            law_first_chunks_stopped(run.rest(), rest, left, e);
            if limit <= firsts.len() {
                assert(firsts.take(limit as int) =~= here + rest.filter(pred).take(left as int));
            }
        } else {
            assert(rest =~= Seq::<Leaf>::empty());
            assert(rest.filter(pred) =~= Seq::<Leaf>::empty()) by {
                reveal(Seq::filter);
            }
        }
    }
}

/// Keys that are empty or longer than 255 bytes have no entry, nor has a table without
/// blocks of its own.
pub proof fn law_no_entry(t: TableSpec, key: Seq<u8>, limit: nat)
    ensures
        key.len() == 0 || key.len() > 255 || t.root_is_fake ==> entries::entry_of(t, key) == Ok::<
            Option<Seq<u8>>,
            Error,
        >(None),
        t.root_is_fake ==> entries::keys_from(t, key, limit) == Ok::<Seq<Leaf>, Error>(
            Seq::empty(),
        ),
{
}

/// A failed descent fails a lookup and a dump, with the same failure.
pub proof fn law_descent_fails(t: TableSpec, key: Seq<u8>, limit: nat, e: Error)
    requires
        !t.root_is_fake,
        table::descend(t, key, t.root, t.level) == Err::<(Seq<Slot>, bool), Error>(e),
    ensures
        0 < key.len() <= 255 ==> entries::entry_of(t, key) == Err::<Option<Seq<u8>>, Error>(e),
        entries::keys_from(t, key, limit) == Err::<Seq<Leaf>, Error>(e),
{
}

// Posting lists.

/// An entry of a chunk is read from its two numbers, whatever they are: the distance to the
/// next document less one, and the occurrence count, of which 32 bits are kept.
pub proof fn law_entry_read(before: Seq<u8>, did: u64, gap: u64, wdf: u64, tail: Seq<u8>)
    requires
        did + gap + 1 <= u64::MAX,
    ensures
        ({
            let head = before + varint::packed_uint(gap as nat) + varint::packed_uint(wdf as nat);
            let rest = postlist::entries_at(
                head + tail,
                head.len() as int,
                (did + gap + 1) as u64,
            );
            postlist::entries_at(head + tail, before.len() as int, did) == (Entries {
                postings: seq![((did + gap + 1) as u64, (wdf as int % 0x1_0000_0000) as u32)]
                    + rest.postings,
                end: rest.end,
                failure: rest.failure,
            })
        }),
{
    let a = varint::packed_uint(gap as nat);
    let b = varint::packed_uint(wdf as nat);
    let tag = before + a + b + tail;
    assert(a.len() > 0);
    varint::law_uint_round_trip(before, gap as nat, b + tail);
    assert(tag =~= before + a + (b + tail));
    varint::law_uint_round_trip(before + a, wdf as nat, tail);
}

/// A chunk body is read from its flag, two numbers and entries, whatever they are: the first
/// number is passed over, and the second is the count of the first document, of which 32
/// bits are kept.
pub proof fn law_body_read(
    before: Seq<u8>,
    flag: u8,
    span: u64,
    wdf: u64,
    tail: Seq<u8>,
    did: u64,
)
    ensures
        ({
            let head = before + seq![flag] + varint::packed_uint(span as nat) + varint::packed_uint(
                wdf as nat,
            );
            let rest = postlist::entries_at(head + tail, head.len() as int, did);
            postlist::body_at(head + tail, before.len() as int, did) == (Entries {
                postings: seq![(did, (wdf as int % 0x1_0000_0000) as u32)] + rest.postings,
                end: rest.end,
                failure: rest.failure,
            })
        }),
{
    let a = varint::packed_uint(span as nat);
    let b = varint::packed_uint(wdf as nat);
    let start = before + seq![flag];
    let tag = start + a + b + tail;
    varint::law_uint_round_trip(start, span as nat, b + tail);
    assert(tag =~= start + a + (b + tail));
    varint::law_uint_round_trip(start + a, wdf as nat, tail);
}

/// A chunk body without its flag, or that ends before its second number does, is cut short.
pub proof fn law_body_cut(before: Seq<u8>, flag: u8, span: u64, did: u64)
    ensures
        postlist::body_at(before, before.len() as int, did).failure == Some(
            Error::PostlistTruncated,
        ),
        postlist::body_at(before + seq![flag], before.len() as int, did).failure == Some(
            Error::PostlistTruncated,
        ),
        postlist::body_at(
            before + seq![flag] + varint::packed_uint(span as nat),
            before.len() as int,
            did,
        ).failure == Some(Error::PostlistTruncated),
        postlist::body_at(before, before.len() as int, did).postings.len() == 0,
        postlist::body_at(before + seq![flag], before.len() as int, did).postings.len() == 0,
        postlist::body_at(
            before + seq![flag] + varint::packed_uint(span as nat),
            before.len() as int,
            did,
        ).postings.len() == 0,
{
    let start = before + seq![flag];
    let none = Seq::<u8>::empty();
    let tag = start + varint::packed_uint(span as nat);
    varint::law_uint_round_trip(start, span as nat, none);
    assert(tag + none =~= tag);
    assert(varint::uint_at(start, start.len() as int) is None);
    assert(varint::uint_at(tag, tag.len() as int) is None);
}

/// A first chunk is read from three numbers and a body, whatever they are. The list's first
/// document is the third number and one. Only the flag 0x31 marks the last chunk.
pub proof fn law_first_chunk_read(termfreq: u64, collfreq: u64, did: u64, body: Seq<u8>)
    requires
        body.len() > 0,
    ensures
        ({
            let head = varint::packed_uint(termfreq as nat) + varint::packed_uint(collfreq as nat)
                + varint::packed_uint(did as nat);
            let read = postlist::body_at(head + body, head.len() as int, (did + 1) as u64);
            postlist::first_chunk(head + body) == (if did == u64::MAX {
                Err(Error::Malformed)
            } else {
                match read.failure {
                    Some(e) => Err(e),
                    None => Ok(
                        (
                            PostlistSpec { termfreq, collfreq, postings: read.postings },
                            body[0] == 0x31,
                        ),
                    ),
                }
            })
        }),
{
    let a = varint::packed_uint(termfreq as nat);
    let b = varint::packed_uint(collfreq as nat);
    let c = varint::packed_uint(did as nat);
    let none = Seq::<u8>::empty();
    let tag = a + b + c + body;
    assert(tag =~= none + a + (b + c + body));
    varint::law_uint_round_trip(none, termfreq as nat, b + c + body);
    assert(tag =~= a + b + (c + body));
    varint::law_uint_round_trip(a, collfreq as nat, c + body);
    varint::law_uint_round_trip(a + b, did as nat, body);
    reveal_with_fuel(varint::u64s_at, 4);
    assert(tag[(a + b + c).len() as int] == body[0]);
}

/// A first chunk that ends before its third number does is cut short.
pub proof fn law_first_chunk_cut(v: Seq<u64>)
    requires
        v.len() < 3,
    ensures
        postlist::first_chunk(version_laws::packed_uints(v)) == Err::<(PostlistSpec, bool), Error>(
            Error::PostlistTruncated,
        ),
{
    let none = Seq::<u8>::empty();
    format_laws::lemma_uints_cut(none, v, 3);
    assert(none + version_laws::packed_uints(v) =~= version_laws::packed_uints(v));
}

/// A key with a list's prefix but without a document number behind it fails the reading of
/// the list.
pub proof fn law_chunk_key_cut(prefix: Seq<u8>, separated: bool, tail: Seq<u8>)
    requires
        sortable::sortable_at(tail, 0) is None,
    ensures
        ({
            let key = prefix + (if separated {
                seq![0u8]
            } else {
                Seq::empty()
            }) + tail;
            postlist::continuation(key, prefix, separated) == Err::<Option<u64>, Error>(
                Error::PostlistTruncated,
            )
        }),
{
    let start = prefix + (if separated {
        seq![0u8]
    } else {
        Seq::empty()
    });
    let key = start + tail;
    assert(key.take(prefix.len() as int) =~= prefix);
    assert(tail.len() > 0 ==> key[start.len() as int] == tail[0]);
}

/// The failure to walk on, to read a further chunk's key, its tag or its body fails the
/// reading of the list.
pub proof fn law_further_fails(prefix: Seq<u8>, separated: bool, run: Run, e: Error)
    ensures
        run.items.len() == 1 && run.stop == Some(e) ==> postlist::further(prefix, separated, run)
            == Err::<Seq<(u64, u32)>, Error>(e),
        run.items.len() > 1 && run.items[1] is None ==> postlist::further(prefix, separated, run)
            == Err::<Seq<(u64, u32)>, Error>(Error::Malformed),
        run.items.len() > 1 && (run.items[1] matches Some(item) && postlist::continuation(
            item.key,
            prefix,
            separated,
        ) == Err::<Option<u64>, Error>(e)) ==> postlist::further(prefix, separated, run) == Err::<
            Seq<(u64, u32)>,
            Error,
        >(e),
        run.items.len() > 1 && (run.items[1] matches Some(item) && (postlist::continuation(
            item.key,
            prefix,
            separated,
        ) matches Ok(Some(did)) && (entries::tag_of(run.rest()) == Err::<(Seq<u8>, Run), Error>(e)
            || (entries::tag_of(run.rest()) matches Ok((tag, _)) && postlist::body_at(
            tag,
            0,
            did,
        ).failure == Some(e))))) ==> postlist::further(prefix, separated, run) == Err::<
            Seq<(u64, u32)>,
            Error,
        >(e),
{
    if run.items.len() > 1 {
        assert(run.rest().items[0] == run.items[1]);
    }
}

/// The failure to find a list's first chunk, or to read its tag, fails the reading of the
/// list.
pub proof fn law_list_fails(t: TableSpec, term: Seq<u8>, pos: Seq<Slot>, e: Error)
    ensures
        table::descend(t, postlist::list_key(term), t.root, t.level) == Err::<
            (Seq<Slot>, bool),
            Error,
        >(e) ==> postlist::postlist_of(t, term) == Err::<Option<PostlistSpec>, Error>(e),
        table::descend(t, postlist::list_key(term), t.root, t.level) == Ok::<
            (Seq<Slot>, bool),
            Error,
        >((pos, true)) && (entries::tag_of(table::run_from(t, pos)) == Err::<
            (Seq<u8>, Run),
            Error,
        >(e) || (entries::tag_of(table::run_from(t, pos)) matches Ok((tag, _))
            && postlist::first_chunk(tag) == Err::<(PostlistSpec, bool), Error>(e)))
            ==> postlist::postlist_of(t, term) == Err::<Option<PostlistSpec>, Error>(e),
{
}

// Version header.

/// The first bytes of a version header, up to and including the identifier.
pub open spec fn header_start(uuid: Seq<u8>) -> Seq<u8> {
    seq![
        0x0fu8,
        0x0d,
        0x58,
        0x61,
        0x70,
        0x69,
        0x61,
        0x6e,
        0x20,
        0x47,
        0x6c,
        0x61,
        0x73,
        0x73,
        4,
        110,
    ] + uuid
}

proof fn lemma_header_start(uuid: Seq<u8>, behind: Seq<u8>)
    ensures
        ({
            let data = header_start(uuid) + behind;
            &&& data.len() >= 16
            &&& data.subrange(0, 14) == version::GLASS_MAGIC@
            &&& data[14] == 4
            &&& data[15] == 110
            &&& uuid.len() == 16 ==> data.subrange(16, 32) == uuid
        }),
{
    let data = header_start(uuid) + behind;
    assert(data.subrange(0, 14) =~= version::GLASS_MAGIC@);
    if uuid.len() == 16 {
        assert(data.subrange(16, 32) =~= uuid);
    }
}

/// A header that ends inside its identifier is malformed, and one that ends behind it, or
/// inside its revision, has a bad revision.
pub proof fn law_revision_cut(uuid: Seq<u8>, junk: Seq<u8>)
    requires
        uuid.len() <= 16,
        forall|k: int| 0 <= k < junk.len() ==> #[trigger] junk[k] >= 128,
    ensures
        uuid.len() < 16 ==> version::version_at(header_start(uuid)) == Err::<VersionSpec, Error>(
            Error::Malformed,
        ),
        uuid.len() == 16 ==> version::version_at(header_start(uuid) + junk) == Err::<
            VersionSpec,
            Error,
        >(Error::BadRevision),
{
    let none = Seq::<u8>::empty();
    lemma_header_start(uuid, none);
    assert(header_start(uuid) + none =~= header_start(uuid));
    lemma_header_start(uuid, junk);
    if uuid.len() == 16 {
        let data = header_start(uuid) + junk;
        assert forall|k: int| 32 <= k < data.len() implies #[trigger] data[k] >= 128 by {
            assert(data[k] == junk[k - 32]);
        }
        format_laws::law_uint_cut(data, 32);
    }
}

/// Root info that ends inside its five numbers, or inside its freelist, cannot be read. What
/// there is of the numbers is consumed, but nothing of the freelist.
pub proof fn law_root_cut(before: Seq<u8>, v: Seq<u64>, freelist: Seq<u8>, cut: int)
    requires
        v.len() <= 5,
        freelist.len() <= u64::MAX,
        0 <= cut < freelist.len(),
    ensures
        v.len() < 5 ==> {
            let buf = before + version_laws::packed_uints(v);
            &&& version::root_at(buf, before.len() as int) is None
            &&& version::root_end(buf, before.len() as int) == buf.len()
        },
        v.len() == 5 ==> {
            let head = before + version_laws::packed_uints(v) + varint::packed_uint(freelist.len());
            &&& version::root_at(head + freelist.take(cut), before.len() as int) is None
            &&& version::root_end(head + freelist.take(cut), before.len() as int) == head.len()
        },
{
    let start = before + version_laws::packed_uints(v);
    if v.len() < 5 {
        format_laws::lemma_uints_cut(before, v, 5);
        lemma_uints_consumed(before, v, 5);
    } else {
        let len = varint::packed_uint(freelist.len());
        let tail = freelist.take(cut);
        version_laws::law_uints_round_trip(before, v, len + tail);
        assert(start + len + tail =~= start + (len + tail));
        format_laws::law_string_round_trip(start, freelist, tail, cut);
        varint::law_uint_round_trip(start, freelist.len(), tail);
    }
}

proof fn lemma_uints_consumed(before: Seq<u8>, v: Seq<u64>, n: nat)
    requires
        v.len() < n,
    ensures
        varint::u64s_end(before + version_laws::packed_uints(v), before.len() as int, n) == (before
            + version_laws::packed_uints(v)).len(),
    decreases v.len(),
{
    let all = before + version_laws::packed_uints(v);
    if v.len() > 0 {
        let head = varint::packed_uint(v[0] as nat);
        let rest = version_laws::packed_uints(v.drop_first());
        varint::law_uint_round_trip(before, v[0] as nat, rest);
        assert(all =~= before + head + rest);
        lemma_uints_consumed(before + head, v.drop_first(), (n - 1) as nat);
        assert(all =~= (before + head) + rest);
    } else {
        assert(all =~= before);
        assert(varint::uint_at(all, before.len() as int) is None);
    }
}

/// A header with fewer root infos than tables has bad root info.
pub proof fn law_roots_cut(uuid: Seq<u8>, rev: u64, roots: Seq<RootInfo>, freelists: Seq<Seq<u8>>)
    requires
        uuid.len() == 16,
        roots.len() < 6,
        forall|k: int|
            0 <= k < roots.len() ==> version_laws::root_ok(#[trigger] roots[k], freelists[k]),
    ensures
        version::version_at(
            header_start(uuid) + varint::packed_uint(rev as nat) + version_laws::packed_roots(
                roots,
                freelists,
            ),
        ) == Err::<VersionSpec, Error>(Error::BadRootInfo),
{
    let packed = version_laws::packed_roots(roots, freelists);
    let rest = varint::packed_uint(rev as nat) + packed;
    let head = header_start(uuid) + varint::packed_uint(rev as nat);
    let data = head + packed;
    let none = Seq::<u8>::empty();
    lemma_header_start(uuid, rest);
    assert(data =~= header_start(uuid) + rest);
    varint::law_uint_round_trip(header_start(uuid), rev as nat, packed);
    version_laws::lemma_roots_round_trip(head, roots, freelists, none);
    assert(data + none =~= data);
    lemma_roots_missing(data, head.len() as int, roots.len(), 6);
}

proof fn lemma_roots_missing(buf: Seq<u8>, pos: int, k: nat, n: nat)
    requires
        k < n,
        version::roots_at(buf, pos, k) matches Some((_, end)) && end == buf.len(),
    ensures
        version::roots_at(buf, pos, n) is None,
    decreases n,
{
    if n > k + 1 {
        lemma_roots_missing(buf, pos, k, (n - 1) as nat);
    } else {
        let end = buf.len() as int;
        assert(varint::uint_at(buf, end) is None);
        reveal_with_fuel(varint::u64s_at, 2);
        assert(varint::u64s_at(buf, end, 5) is None);
        assert(version::root_at(buf, end) is None);
    }
}

/// The statistics of a header are eight numbers, whatever they are. The second and the fifth
/// are added to those that they are measured from, and a sum beyond 64 bits is malformed.
#[verifier::spinoff_prover]
#[verifier::rlimit(60)]
pub proof fn law_stats_read(
    uuid: Seq<u8>,
    rev: u64,
    roots: Seq<RootInfo>,
    freelists: Seq<Seq<u8>>,
    s: Seq<u64>,
    behind: Seq<u8>,
)
    requires
        uuid.len() == 16,
        roots.len() == 6,
        s.len() == 8,
        forall|k: int|
            0 <= k < roots.len() ==> version_laws::root_ok(#[trigger] roots[k], freelists[k]),
    ensures
        ({
            let data = header_start(uuid) + varint::packed_uint(rev as nat)
                + version_laws::packed_roots(roots, freelists) + version_laws::packed_uints(s)
                + behind;
            version::version_at(data) == (if s[0] + s[1] > u64::MAX || s[3] + s[4] > u64::MAX {
                Err(Error::Malformed)
            } else {
                Ok(
                    VersionSpec {
                        format_version: 1134,
                        uuid,
                        rev,
                        roots,
                        doccount: s[0],
                        last_docid: (s[0] + s[1]) as u64,
                        doclen_lbound: s[2],
                        wdf_ubound: s[3],
                        doclen_ubound: (s[3] + s[4]) as u64,
                        oldest_changeset: s[5],
                        total_doclen: s[6],
                        spelling_wordfreq_ubound: s[7],
                    },
                )
            })
        }),
{
    let packed = version_laws::packed_roots(roots, freelists);
    let stats = version_laws::packed_uints(s);
    let number = varint::packed_uint(rev as nat);
    let start = header_start(uuid);
    let data = start + number + packed + stats + behind;
    lemma_header_start(uuid, number + packed + stats + behind);
    assert(data =~= start + (number + packed + stats + behind));
    varint::law_uint_round_trip(start, rev as nat, packed + stats + behind);
    assert(data =~= start + number + (packed + stats + behind));
    version_laws::lemma_roots_round_trip(start + number, roots, freelists, stats + behind);
    assert(data =~= (start + number) + packed + (stats + behind));
    version_laws::law_uints_round_trip(start + number + packed, s, behind);
}

} // verus!
