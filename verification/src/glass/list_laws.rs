//! What holds of posting lists as a whole: their keys keep terms apart and in order, and
//! a list read back from its chunks is the list that was stored.

use crate::bytes;
use crate::error::Error;
use crate::glass::postlist;
use crate::glass::postlist::{Entries, PostlistSpec};
use crate::glass::sortable;
use crate::glass::varint;
use vstd::prelude::*;

verus! {

proof fn lemma_escape_concat(a: Seq<u8>, b: Seq<u8>)
    ensures
        postlist::escaped(a + b) == postlist::escaped(a) + postlist::escaped(b),
    decreases b.len(),
{
    if b.len() == 0 {
        assert(a + b =~= a);
    } else {
        assert((a + b).drop_last() =~= a + b.drop_last());
        lemma_escape_concat(a, b.drop_last());
        assert(postlist::escaped(a + b) =~= postlist::escaped(a) + postlist::escaped(b));
    }
}

/// In an escaped term every NUL byte is followed by 0xff.
proof fn lemma_escape_nul(term: Seq<u8>)
    ensures
        term.len() <= postlist::escaped(term).len(),
        forall|i: int|
            0 <= i < postlist::escaped(term).len() && #[trigger] postlist::escaped(term)[i] == 0
                ==> i + 1 < postlist::escaped(term).len() && postlist::escaped(term)[i + 1] == 0xff,
    decreases term.len(),
{
    if term.len() > 0 {
        lemma_escape_nul(term.drop_last());
    }
}

proof fn lemma_escape_one(c: u8)
    ensures
        postlist::escaped(seq![c]).len() > 0,
        postlist::escaped(seq![c])[0] == c,
{
    assert(seq![c].drop_last() =~= Seq::<u8>::empty());
    assert(postlist::escaped(Seq::<u8>::empty()).len() == 0);
}

proof fn lemma_escape_order_from(a: Seq<u8>, b: Seq<u8>, i: int)
    requires
        0 <= i <= a.len(),
        i <= b.len(),
        a.take(i) == b.take(i),
        bytes::lex_lt_from(a, b, i),
    ensures
        bytes::lex_lt(postlist::escaped(a), postlist::escaped(b)),
    decreases b.len() - i,
{
    let p = a.take(i);
    let ea = postlist::escaped(a);
    let eb = postlist::escaped(b);
    let ep = postlist::escaped(p);
    if i >= a.len() || a[i] != b[i] {
        let tb = b.skip(i + 1);
        lemma_escape_one(b[i]);
        assert(b =~= p + (seq![b[i]] + tb));
        lemma_escape_concat(p, seq![b[i]] + tb);
        lemma_escape_concat(seq![b[i]], tb);
        if i >= a.len() {
            assert(p =~= a);
        } else {
            let ta = a.skip(i + 1);
            lemma_escape_one(a[i]);
            assert(a =~= p + (seq![a[i]] + ta));
            lemma_escape_concat(p, seq![a[i]] + ta);
            lemma_escape_concat(seq![a[i]], ta);
        }
        bytes::lemma_lex_at(ea, eb, ep.len() as int);
    } else {
        assert(a.take(i + 1) =~= b.take(i + 1)) by {
            assert forall|k: int| 0 <= k < i implies a[k] == b[k] by {
                assert(a.take(i)[k] == a[k] && b.take(i)[k] == b[k]);
            }
        }
        lemma_escape_order_from(a, b, i + 1);
    }
}

/// Escaping preserves byte order.
pub proof fn law_escape_preserves_order(a: Seq<u8>, b: Seq<u8>)
    requires
        bytes::lex_lt(a, b),
    ensures
        bytes::lex_lt(postlist::escaped(a), postlist::escaped(b)),
{
    assert(a.take(0) =~= b.take(0));
    lemma_escape_order_from(a, b, 0);
}

/// No two terms share a list key, and no term has the key of the list of document
/// lengths.
pub proof fn law_list_keys_distinct(a: Seq<u8>, b: Seq<u8>)
    requires
        postlist::list_key(a) == postlist::list_key(b),
    ensures
        a == b,
{
    lemma_escape_nul(a);
    lemma_escape_nul(b);
    if a.len() > 0 && b.len() > 0 {
        bytes::law_lex_total(a, b);
        bytes::law_lex_irreflexive(postlist::escaped(a));
        if bytes::lex_lt(a, b) {
            law_escape_preserves_order(a, b);
        } else if bytes::lex_lt(b, a) {
            law_escape_preserves_order(b, a);
        }
    } else if a.len() > 0 {
        assert(postlist::escaped(a)[0] == 0);
    } else if b.len() > 0 {
        assert(postlist::escaped(b)[0] == 0);
    } else {
        assert(a =~= b);
    }
}

/// The key of the chunk of a term's list that starts with document `did`.
pub open spec fn chunk_key(term: Seq<u8>, did: u64) -> Seq<u8> {
    if term.len() > 0 {
        postlist::list_key(term).push(0) + sortable::sortable(did)
    } else {
        postlist::list_key(term) + sortable::sortable(did)
    }
}

proof fn lemma_sortable_lead(v: u64)
    ensures
        sortable::sortable(v).len() >= 2,
        sortable::sortable(v)[0] != 0xff,
{
    let none = Seq::<u8>::empty();
    sortable::law_sortable_round_trip(none, v, none);
    assert(none + sortable::sortable(v) + none =~= sortable::sortable(v));
}

/// The key of a further chunk is recognised, and gives back the chunk's first document.
pub proof fn law_chunk_key_round_trip(term: Seq<u8>, did: u64)
    ensures
        postlist::continuation(chunk_key(term, did), postlist::list_key(term), term.len() > 0)
            == Ok::<Option<u64>, Error>(Some(did)),
{
    let key = chunk_key(term, did);
    let prefix = postlist::list_key(term);
    let none = Seq::<u8>::empty();
    let head = if term.len() > 0 {
        prefix.push(0)
    } else {
        prefix
    };
    assert(key =~= head + sortable::sortable(did) + none);
    sortable::law_sortable_round_trip(head, did, none);
    assert(key.take(prefix.len() as int) =~= prefix);
}

/// The key of one list's further chunk is never taken for another list's.
pub proof fn law_chunk_keys_kept_apart(term: Seq<u8>, did: u64, other: Seq<u8>)
    requires
        term != other,
    ensures
        !(postlist::continuation(chunk_key(term, did), postlist::list_key(other), other.len() > 0)
            matches Ok(Some(_))),
{
    let key = chunk_key(term, did);
    let own = postlist::list_key(term);
    let prefix = postlist::list_key(other);
    let n = prefix.len() as int;
    lemma_escape_nul(term);
    lemma_escape_nul(other);
    lemma_sortable_lead(did);
    if key.len() >= n && key.take(n) == prefix {
        assert forall|k: int| 0 <= k < n implies key[k] == prefix[k] by {
            assert(key.take(n)[k] == key[k]);
        }
        if term.len() == 0 {
            assert(other.len() == 0 ==> term =~= other);
            assert(key[0] == 0 && key[1] == 0xe0);
            assert(prefix[0] == 0);
            assert(key[1] == prefix[1]);
        } else if other.len() == 0 {
            assert(own[0] == 0);
            assert(key[1] == prefix[1]);
        } else if n < own.len() {
            if key[n] == 0 {
                assert(own[n] == 0);
                assert(key[n + 1] == 0xff);
            }
        } else if n > own.len() {
            let m = own.len() as int;
            assert(key[m] == 0);
            assert(prefix[m] == 0);
            assert(key[m + 1] == prefix[m + 1]);
            assert(key[m + 1] == sortable::sortable(did)[0]);
        } else {
            assert(own =~= prefix);
            law_list_keys_distinct(term, other);
        }
    }
}

/// The key of a first chunk is never taken for the key of a further chunk.
pub proof fn law_list_key_is_no_chunk_key(term: Seq<u8>, other: Seq<u8>)
    ensures
        !(postlist::continuation(
            postlist::list_key(term),
            postlist::list_key(other),
            other.len() > 0,
        ) matches Ok(Some(_))),
{
    let key = postlist::list_key(term);
    let prefix = postlist::list_key(other);
    let n = prefix.len() as int;
    lemma_escape_nul(term);
    lemma_escape_nul(other);
    if key.len() >= n && key.take(n) == prefix {
        assert forall|k: int| 0 <= k < n implies key[k] == prefix[k] by {
            assert(key.take(n)[k] == key[k]);
        }
        if term.len() == 0 {
            if other.len() > 0 {
                assert(prefix[0] == 0);
            }
        } else if other.len() == 0 {
            assert(key[0] == 0);
        } else if n < key.len() && key[n] == 0 {
            assert(key[n + 1] == 0xff);
        }
    }
}

/// The chunks of a list are stored in document order, the first chunk before the others.
pub proof fn law_chunk_keys_in_order(term: Seq<u8>, did: u64, later: u64)
    requires
        did < later,
    ensures
        bytes::lex_lt(postlist::list_key(term), chunk_key(term, did)),
        bytes::lex_lt(chunk_key(term, did), chunk_key(term, later)),
{
    let prefix = postlist::list_key(term);
    lemma_sortable_lead(did);
    bytes::lemma_lex_at(prefix, chunk_key(term, did), prefix.len() as int);
    sortable::law_sortable_preserves_order(did, later);
    let head = if term.len() > 0 {
        prefix.push(0)
    } else {
        prefix
    };
    bytes::lemma_lex_prefix(head, sortable::sortable(did), sortable::sortable(later));
}

/// Postings in strictly ascending document order.
pub open spec fn ascending(list: Seq<(u64, u32)>) -> bool {
    forall|i: int, j: int| 0 <= i < j < list.len() ==> (#[trigger] list[i]).0 < (#[trigger] list[j]).0
}

proof fn lemma_entries_ascend(tag: Seq<u8>, pos: int, did: u64)
    ensures
        ascending(postlist::entries_at(tag, pos, did).postings),
        forall|i: int|
            0 <= i < postlist::entries_at(tag, pos, did).postings.len() ==> did < (
            #[trigger] postlist::entries_at(tag, pos, did).postings[i]).0,
    decreases tag.len() - pos,
{
    if 0 <= pos < tag.len() {
        varint::lemma_uint_at_bounds(tag, pos);
        if let Some((gap, mid)) = varint::u64_at(tag, pos) {
            varint::lemma_uint_at_bounds(tag, mid);
            if let Some((wdf, next)) = varint::u64_at(tag, mid) {
                if did + gap + 1 <= u64::MAX {
                    lemma_entries_ascend(tag, next, (did + gap + 1) as u64);
                }
            }
        }
    }
}

/// Whatever bytes a chunk holds, its postings come out in strictly ascending document
/// order, and the first of them is for the document that the chunk starts with.
pub proof fn law_chunk_ascends(tag: Seq<u8>, pos: int, did: u64)
    ensures
        ascending(postlist::body_at(tag, pos, did).postings),
        postlist::body_at(tag, pos, did).postings.len() > 0 ==> postlist::body_at(
            tag,
            pos,
            did,
        ).postings[0].0 == did,
{
    if pos < tag.len() {
        if let Some((_, mid)) = varint::u64_at(tag, pos + 1) {
            if let Some((_, next)) = varint::u64_at(tag, mid) {
                lemma_entries_ascend(tag, next, did);
            }
        }
    }
}

/// The packing of the entries of a chunk behind the one for document `did`.
pub open spec fn packed_entries(did: u64, list: Seq<(u64, u32)>) -> Seq<u8>
    decreases list.len(),
{
    if list.len() == 0 {
        Seq::empty()
    } else {
        varint::packed_uint((list[0].0 - did - 1) as nat) + varint::packed_uint(list[0].1 as nat)
            + packed_entries(list[0].0, list.drop_first())
    }
}

/// The packing of a chunk body.
pub open spec fn packed_body(last: bool, list: Seq<(u64, u32)>) -> Seq<u8> {
    let flag: u8 = if last {
        0x31
    } else {
        0x30
    };
    seq![flag] + varint::packed_uint((list.last().0 - list[0].0) as nat) + varint::packed_uint(
        list[0].1 as nat,
    ) + packed_entries(list[0].0, list.drop_first())
}

/// The packing of the first chunk of a posting list.
pub open spec fn packed_first(
    termfreq: u64,
    collfreq: u64,
    last: bool,
    list: Seq<(u64, u32)>,
) -> Seq<u8> {
    varint::packed_uint(termfreq as nat) + varint::packed_uint(collfreq as nat)
        + varint::packed_uint((list[0].0 - 1) as nat) + packed_body(last, list)
}

proof fn lemma_packed_nonempty(n: nat)
    ensures
        varint::packed_uint(n).len() > 0,
{
}

proof fn lemma_entries_round_trip(before: Seq<u8>, did: u64, list: Seq<(u64, u32)>)
    requires
        ascending(list),
        list.len() > 0 ==> did < list[0].0,
    ensures
        ({
            let tag = before + packed_entries(did, list);
            postlist::entries_at(tag, before.len() as int, did) == (Entries {
                postings: list,
                end: tag.len() as int,
                failure: None,
            })
        }),
    decreases list.len(),
{
    let tag = before + packed_entries(did, list);
    if list.len() == 0 {
        assert(list =~= Seq::<(u64, u32)>::empty());
    } else {
        let gap = varint::packed_uint((list[0].0 - did - 1) as nat);
        let wdf = varint::packed_uint(list[0].1 as nat);
        let rest = list.drop_first();
        let tail = packed_entries(list[0].0, rest);
        lemma_packed_nonempty((list[0].0 - did - 1) as nat);
        varint::law_uint_round_trip(before, (list[0].0 - did - 1) as nat, wdf + tail);
        assert(tag =~= before + gap + (wdf + tail));
        varint::law_uint_round_trip(before + gap, list[0].1 as nat, tail);
        assert(tag =~= (before + gap) + wdf + tail);
        lemma_entries_round_trip(before + gap + wdf, list[0].0, rest);
        assert(list =~= seq![list[0]] + rest);
    }
}

/// A chunk body read back from its packing gives the postings that were packed, and
/// whether the chunk was marked as the last.
pub proof fn law_chunk_round_trip(before: Seq<u8>, last: bool, list: Seq<(u64, u32)>)
    requires
        list.len() > 0,
        ascending(list),
    ensures
        ({
            let tag = before + packed_body(last, list);
            &&& postlist::body_at(tag, before.len() as int, list[0].0) == (Entries {
                postings: list,
                end: tag.len() as int,
                failure: None,
            })
            &&& (tag[before.len() as int] == postlist::LAST_CHUNK) == last
        }),
{
    let tag = before + packed_body(last, list);
    let flag: u8 = if last {
        0x31
    } else {
        0x30
    };
    let span_n = (list.last().0 - list[0].0) as nat;
    assert(list.len() > 1 ==> list[0].0 < list[list.len() - 1].0);
    let span = varint::packed_uint(span_n);
    let wdf = varint::packed_uint(list[0].1 as nat);
    let rest = list.drop_first();
    let tail = packed_entries(list[0].0, rest);
    assert(tag =~= before.push(flag) + span + (wdf + tail));
    varint::law_uint_round_trip(before.push(flag), span_n, wdf + tail);
    assert(tag =~= (before.push(flag) + span) + wdf + tail);
    varint::law_uint_round_trip(before.push(flag) + span, list[0].1 as nat, tail);
    lemma_entries_round_trip(before.push(flag) + span + wdf, list[0].0, rest);
    assert(list =~= seq![list[0]] + rest);
    assert(tag[before.len() as int] == flag);
}

/// A first chunk read back from its packing gives the statistics and postings that were
/// packed. Documents are numbered from one.
pub proof fn law_first_chunk_round_trip(
    termfreq: u64,
    collfreq: u64,
    last: bool,
    list: Seq<(u64, u32)>,
)
    requires
        list.len() > 0,
        ascending(list),
        list[0].0 >= 1,
    ensures
        postlist::first_chunk(packed_first(termfreq, collfreq, last, list)) == Ok::<
            (PostlistSpec, bool),
            Error,
        >((PostlistSpec { termfreq, collfreq, postings: list }, last)),
{
    let a = varint::packed_uint(termfreq as nat);
    let b = varint::packed_uint(collfreq as nat);
    let c = varint::packed_uint((list[0].0 - 1) as nat);
    let body = packed_body(last, list);
    let tag = packed_first(termfreq, collfreq, last, list);
    let none = Seq::<u8>::empty();
    assert(tag =~= none + a + (b + c + body));
    varint::law_uint_round_trip(none, termfreq as nat, b + c + body);
    assert(tag =~= a + b + (c + body));
    varint::law_uint_round_trip(a, collfreq as nat, c + body);
    assert(tag =~= (a + b) + c + body);
    varint::law_uint_round_trip(a + b, (list[0].0 - 1) as nat, body);
    law_chunk_round_trip(a + b + c, last, list);
    reveal_with_fuel(varint::u64s_at, 4);
}

proof fn lemma_entry_step(before: Seq<u8>, did: u64, entry: (u64, u32), tail: Seq<u8>)
    requires
        did < entry.0,
    ensures
        ({
            let head = before + varint::packed_uint((entry.0 - did - 1) as nat)
                + varint::packed_uint(entry.1 as nat);
            let rest = postlist::entries_at(head + tail, head.len() as int, entry.0);
            postlist::entries_at(head + tail, before.len() as int, did) == (Entries {
                postings: seq![entry] + rest.postings,
                end: rest.end,
                failure: rest.failure,
            })
        }),
{
    let gap = varint::packed_uint((entry.0 - did - 1) as nat);
    let wdf = varint::packed_uint(entry.1 as nat);
    let tag = before + gap + wdf + tail;
    lemma_packed_nonempty((entry.0 - did - 1) as nat);
    varint::law_uint_round_trip(before, (entry.0 - did - 1) as nat, wdf + tail);
    assert(tag =~= before + gap + (wdf + tail));
    varint::law_uint_round_trip(before + gap, entry.1 as nat, tail);
}

proof fn lemma_entries_stop(before: Seq<u8>, did: u64, list: Seq<(u64, u32)>, junk: Seq<u8>)
    requires
        ascending(list),
        list.len() > 0 ==> did < list[0].0,
    ensures
        ({
            let head = before + packed_entries(did, list);
            let lead = if list.len() > 0 {
                list.last().0
            } else {
                did
            };
            let rest = postlist::entries_at(head + junk, head.len() as int, lead);
            postlist::entries_at(head + junk, before.len() as int, did) == (Entries {
                postings: list + rest.postings,
                end: rest.end,
                failure: rest.failure,
            })
        }),
    decreases list.len(),
{
    let head = before + packed_entries(did, list);
    if list.len() == 0 {
        let rest = postlist::entries_at(head + junk, before.len() as int, did);
        assert(list + rest.postings =~= rest.postings);
        assert(head.len() == before.len());
    } else {
        let rest = list.drop_first();
        let tail = packed_entries(list[0].0, rest);
        let next = before + varint::packed_uint((list[0].0 - did - 1) as nat)
            + varint::packed_uint(list[0].1 as nat);
        assert(head =~= next + tail);
        lemma_entry_step(before, did, list[0], tail + junk);
        assert(next + (tail + junk) =~= head + junk);
        lemma_entries_stop(next, list[0].0, rest, junk);
        assert(rest.len() > 0 ==> rest.last() == list.last());
        let end = postlist::entries_at(head + junk, head.len() as int, list.last().0);
        assert(list + end.postings =~= seq![list[0]] + (rest + end.postings));
    }
}

/// A number that the end of a tag cuts short ends the reading of a chunk: the entries before
/// it are read, and the failure says that the list is cut short.
pub proof fn law_entries_cut(before: Seq<u8>, did: u64, list: Seq<(u64, u32)>, junk: Seq<u8>)
    requires
        ascending(list),
        list.len() > 0 ==> did < list[0].0,
        junk.len() > 0,
        forall|k: int| 0 <= k < junk.len() ==> #[trigger] junk[k] >= 128,
    ensures
        ({
            let tag = before + packed_entries(did, list) + junk;
            postlist::entries_at(tag, before.len() as int, did) == (Entries {
                postings: list,
                end: tag.len() as int,
                failure: Some(Error::PostlistTruncated),
            })
        }),
{
    let tag = before + packed_entries(did, list) + junk;
    let at = (before + packed_entries(did, list)).len() as int;
    lemma_entries_stop(before, did, list, junk);
    assert forall|k: int| at <= k < tag.len() implies #[trigger] tag[k] >= 128 by {
        assert(tag[k] == junk[k - at]);
    }
    lemma_cut(tag, at);
    assert(list + Seq::<(u64, u32)>::empty() =~= list);
}

proof fn lemma_cut(buf: Seq<u8>, pos: int)
    requires
        0 <= pos < buf.len(),
        forall|k: int| pos <= k < buf.len() ==> #[trigger] buf[k] >= 128,
    ensures
        varint::uint_at(buf, pos) is None,
    decreases buf.len() - pos,
{
    assert(buf[pos] >= 128);
    if pos + 1 < buf.len() {
        lemma_cut(buf, pos + 1);
    }
}

/// A distance that leads beyond the largest document number ends the reading of a chunk: the
/// entries before it are read, and the data is found to be malformed.
pub proof fn law_entries_overflow(
    before: Seq<u8>,
    did: u64,
    list: Seq<(u64, u32)>,
    gap: u64,
    behind: Seq<u8>,
)
    requires
        ascending(list),
        list.len() > 0 ==> did < list[0].0,
        (if list.len() > 0 {
            list.last().0
        } else {
            did
        }) + gap + 1 > u64::MAX,
    ensures
        ({
            let junk = varint::packed_uint(gap as nat) + behind;
            let read = before + packed_entries(did, list) + varint::packed_uint(gap as nat);
            let tag = before + packed_entries(did, list) + junk;
            postlist::entries_at(tag, before.len() as int, did) == (Entries {
                postings: list,
                end: read.len() as int,
                failure: Some(Error::Malformed),
            })
        }),
{
    let packed = varint::packed_uint(gap as nat);
    let head = before + packed_entries(did, list);
    lemma_entries_stop(before, did, list, packed + behind);
    lemma_packed_nonempty(gap as nat);
    varint::law_uint_round_trip(head, gap as nat, behind);
    assert(head + packed + behind =~= head + (packed + behind));
    assert(list + Seq::<(u64, u32)>::empty() =~= list);
}

} // verus!
