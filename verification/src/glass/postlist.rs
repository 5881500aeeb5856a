//! Posting lists: which documents a term occurs in, and how often.
//!
//! A posting list is stored in chunks. The first chunk's key is the term, with every NUL
//! byte followed by 0xff; its tag starts with the term's statistics and first document.
//! Each further chunk's key is that key, a NUL separator and the chunk's first document
//! in the sort-preserving encoding. The list of document lengths is stored in the same
//! way under a key of its own, without the separator.

use crate::bytes::compare_bytes;
use crate::error::Error;
use crate::glass::block::LeafItemView;
use crate::glass::entries;
use crate::glass::sortable;
use crate::glass::sortable::unpack_sortable;
use crate::glass::table;
use crate::glass::table::{Cursor, Run, Table, TableSpec};
use crate::glass::varint;
use crate::glass::varint::unpack_uint;
use vstd::prelude::*;

verus! {

/// A decoded posting list: (document, occurrences) pairs and the term's statistics.
pub struct Postlist {
    pub termfreq: u64,
    pub collfreq: u64,
    pub postings: Vec<(u64, u32)>,
}

/// What a posting list holds.
pub struct PostlistSpec {
    pub termfreq: u64,
    pub collfreq: u64,
    pub postings: Seq<(u64, u32)>,
}

impl View for Postlist {
    type V = PostlistSpec;

    open spec fn view(&self) -> PostlistSpec {
        PostlistSpec {
            termfreq: self.termfreq,
            collfreq: self.collfreq,
            postings: self.postings@,
        }
    }
}

/// `term` with 0xff behind every NUL byte.
pub open spec fn escaped(term: Seq<u8>) -> Seq<u8>
    decreases term.len(),
{
    if term.len() == 0 {
        Seq::empty()
    } else if term.last() == 0 {
        escaped(term.drop_last()) + seq![0u8, 0xffu8]
    } else {
        escaped(term.drop_last()).push(term.last())
    }
}

/// The key of the first chunk of a term's posting list. The empty term stands for the
/// list of document lengths.
pub open spec fn list_key(term: Seq<u8>) -> Seq<u8> {
    if term.len() == 0 {
        seq![0x00u8, 0xe0u8]
    } else {
        escaped(term)
    }
}

/// Escape a term's NUL bytes: each is followed by 0xff.
pub fn escape_nuls(term: &[u8]) -> (r: Vec<u8>)
    ensures
        r@ == escaped(term@),
{
    let mut out: Vec<u8> = Vec::new();
    let mut i: usize = 0;
    while i < term.len()
        invariant
            i <= term.len(),
            out@ == escaped(term@.take(i as int)),
        decreases term.len() - i,
    {
        let ghost before = out@;
        out.push(term[i]);
        if term[i] == 0 {
            out.push(0xff);
        }
        proof {
            let upto = term@.take(i + 1);
            assert(upto.drop_last() =~= term@.take(i as int));
            assert(out@ =~= escaped(upto));
        }
        i += 1;
    }
    assert(term@.take(i as int) =~= term@);
    out
}

/// The entries that decoding reads from a tag, the offset at which it stops, and why,
/// where it stops short of the tag's end.
pub struct Entries {
    pub postings: Seq<(u64, u32)>,
    pub end: int,
    pub failure: Option<Error>,
}

/// An occurrence count is kept modulo two to the 32.
pub open spec fn wdf_of(n: u64) -> u32 {
    (n as int % 0x1_0000_0000) as u32
}

/// The entries packed in `tag` from offset `pos` to its end, where `did` is the document
/// of the entry before: each is the distance to the next document less one, then the
/// occurrence count.
pub open spec fn entries_at(tag: Seq<u8>, pos: int, did: u64) -> Entries
    decreases tag.len() - pos,
{
    if pos < 0 || pos >= tag.len() {
        Entries { postings: Seq::empty(), end: pos, failure: None }
    } else {
        proof {
            varint::lemma_uint_at_bounds(tag, pos);
        }
        match varint::u64_at(tag, pos) {
            None => Entries {
                postings: Seq::empty(),
                end: varint::uint_end(tag, pos),
                failure: Some(Error::PostlistTruncated),
            },
            Some((gap, mid)) => if did + gap + 1 > u64::MAX {
                Entries { postings: Seq::empty(), end: mid, failure: Some(Error::Malformed) }
            } else {
                proof {
                    varint::lemma_uint_at_bounds(tag, mid);
                }
                match varint::u64_at(tag, mid) {
                    None => Entries {
                        postings: Seq::empty(),
                        end: varint::uint_end(tag, mid),
                        failure: Some(Error::PostlistTruncated),
                    },
                    Some((wdf, next)) => {
                        let here = (did + gap + 1) as u64;
                        let rest = entries_at(tag, next, here);
                        Entries {
                            postings: seq![(here, wdf_of(wdf))] + rest.postings,
                            end: rest.end,
                            failure: rest.failure,
                        }
                    },
                }
            },
        }
    }
}

/// The byte that marks the last chunk of a posting list: an ASCII one.
pub const LAST_CHUNK: u8 = 0x31;

/// The chunk body at offset `pos` of `tag`, where `did` is the first document of the
/// chunk: whether it is the last chunk, the distance to its last document (which is not
/// used), the first document's occurrence count, then the other entries.
pub open spec fn body_at(tag: Seq<u8>, pos: int, did: u64) -> Entries {
    let none = Seq::<(u64, u32)>::empty();
    if pos >= tag.len() {
        Entries { postings: none, end: pos, failure: Some(Error::PostlistTruncated) }
    } else {
        match varint::u64_at(tag, pos + 1) {
            None => Entries {
                postings: none,
                end: varint::uint_end(tag, pos + 1),
                failure: Some(Error::PostlistTruncated),
            },
            Some((_, mid)) => match varint::u64_at(tag, mid) {
                None => Entries {
                    postings: none,
                    end: varint::uint_end(tag, mid),
                    failure: Some(Error::PostlistTruncated),
                },
                Some((wdf, next)) => {
                    let rest = entries_at(tag, next, did);
                    Entries {
                        postings: seq![(did, wdf_of(wdf))] + rest.postings,
                        end: rest.end,
                        failure: rest.failure,
                    }
                },
            },
        }
    }
}

/// Decode a chunk body starting at `*pos`, given the first document in the chunk. Appends
/// its (document, occurrences) pairs. Returns whether it is the last chunk.
pub fn decode_chunk_body(
    tag: &[u8],
    pos: &mut usize,
    first_did: u64,
    postings: &mut Vec<(u64, u32)>,
) -> (r: Result<bool, Error>)
    ensures
        ({
            let body = body_at(tag@, *old(pos) as int, first_did);
            &&& final(postings)@ == old(postings)@ + body.postings
            &&& *final(pos) == body.end
            &&& match body.failure {
                Some(e) => r == Err::<bool, Error>(e),
                None => r == Ok::<bool, Error>(tag@[*old(pos) as int] == LAST_CHUNK),
            }
        }),
{
    let ghost body = body_at(tag@, *pos as int, first_did);
    let ghost start = postings@;
    assert(start =~= start + Seq::<(u64, u32)>::empty());
    if *pos >= tag.len() {
        return Err(Error::PostlistTruncated);
    }
    let is_last: bool = tag[*pos] == LAST_CHUNK;
    *pos += 1;
    proof {
        varint::lemma_uint_at_bounds(tag@, *pos as int);
    }
    let increase_to_last: Option<u64> = unpack_uint(tag, pos);
    if increase_to_last.is_none() {
        return Err(Error::PostlistTruncated);
    }
    proof {
        varint::lemma_uint_at_bounds(tag@, *pos as int);
    }
    let mut did: u64 = first_did;
    match unpack_uint(tag, pos) {
        Some(wdf) => postings.push((did, low_u32(wdf))),
        None => return Err(Error::PostlistTruncated),
    }
    assert(postings@ + entries_at(tag@, *pos as int, did).postings =~= start + body.postings);
    while *pos < tag.len()
        invariant
            *pos <= tag.len(),
            body == body_at(tag@, *old(pos) as int, first_did),
            start == old(postings)@,
            ({
                let rest = entries_at(tag@, *pos as int, did);
                &&& postings@ + rest.postings == start + body.postings
                &&& rest.end == body.end
                &&& rest.failure == body.failure
            }),
        decreases tag.len() - *pos,
    {
        let ghost from = *pos as int;
        let ghost rest = entries_at(tag@, from, did);
        let ghost before = postings@;
        assert(before + Seq::<(u64, u32)>::empty() =~= before);
        proof {
            varint::lemma_uint_at_bounds(tag@, from);
        }
        let gap: u64 = match unpack_uint(tag, pos) {
            Some(gap) => gap,
            None => return Err(Error::PostlistTruncated),
        };
        let sum: u64 = match did.checked_add(gap) {
            Some(sum) => sum,
            None => return Err(Error::Malformed),
        };
        if sum == u64::MAX {
            return Err(Error::Malformed);
        }
        did = sum + 1;
        proof {
            varint::lemma_uint_at_bounds(tag@, *pos as int);
        }
        match unpack_uint(tag, pos) {
            Some(wdf) => postings.push((did, low_u32(wdf))),
            None => return Err(Error::PostlistTruncated),
        }
        assert(before + rest.postings =~= postings@ + entries_at(
            tag@,
            *pos as int,
            did,
        ).postings);
    }
    assert(postings@ + Seq::<(u64, u32)>::empty() =~= postings@);
    Ok(is_last)
}

/// The low 32 bits.
fn low_u32(n: u64) -> (r: u32)
    ensures
        r == wdf_of(n),
{
    (n % 0x1_0000_0000) as u32
}

/// The first chunk of a posting list: the number of documents, the number of occurrences
/// and the first document less one, then the chunk body. Also whether it is the last.
pub open spec fn first_chunk(tag: Seq<u8>) -> Result<(PostlistSpec, bool), Error> {
    match varint::u64s_at(tag, 0, 3) {
        None => Err(Error::PostlistTruncated),
        Some((head, pos)) => if head[2] == u64::MAX {
            Err(Error::Malformed)
        } else {
            let body = body_at(tag, pos, (head[2] + 1) as u64);
            match body.failure {
                Some(e) => Err(e),
                None => Ok(
                    (
                        PostlistSpec {
                            termfreq: head[0],
                            collfreq: head[1],
                            postings: body.postings,
                        },
                        tag[pos] == LAST_CHUNK,
                    ),
                ),
            }
        },
    }
}

/// Decode the first chunk of a posting list. Also returns whether it is the last chunk.
pub fn decode_first_chunk(tag: &[u8]) -> (r: Result<(Postlist, bool), Error>)
    ensures
        match first_chunk(tag@) {
            Ok((list, last)) => r matches Ok((out, flag)) && out@ == list && flag == last,
            Err(e) => r == Err::<(Postlist, bool), Error>(e),
        },
{
    proof {
        reveal_with_fuel(varint::u64s_at, 4);
    }
    let mut pos: usize = 0;
    let termfreq: u64 = match unpack_uint(tag, &mut pos) {
        Some(n) => n,
        None => return Err(Error::PostlistTruncated),
    };
    let collfreq: u64 = match unpack_uint(tag, &mut pos) {
        Some(n) => n,
        None => return Err(Error::PostlistTruncated),
    };
    let before_first: u64 = match unpack_uint(tag, &mut pos) {
        Some(n) => n,
        None => return Err(Error::PostlistTruncated),
    };
    if before_first == u64::MAX {
        return Err(Error::Malformed);
    }
    let mut postings: Vec<(u64, u32)> = Vec::new();
    match decode_chunk_body(tag, &mut pos, before_first + 1, &mut postings) {
        Ok(last) => {
            assert(first_chunk(tag@) matches Ok((list, _)) && list.postings =~= postings@);
            Ok((Postlist { termfreq, collfreq, postings }, last))
        },
        Err(e) => Err(e),
    }
}

/// The first document of the chunk that is stored under `key`, where that is a key of a
/// further chunk of the list under `prefix`; `None` for the key of anything else.
pub open spec fn continuation(key: Seq<u8>, prefix: Seq<u8>, separated: bool) -> Result<
    Option<u64>,
    Error,
> {
    let n = prefix.len() as int;
    let at = if separated {
        n + 1
    } else {
        n
    };
    if key.len() < at || key.take(n) != prefix || (separated && key[n] != 0) {
        Ok(None)
    } else {
        match sortable::sortable_at(key, at) {
            None => Err(Error::PostlistTruncated),
            Some((did, _)) => Ok(Some(did as u64)),
        }
    }
}

/// Read the first document of a further chunk of the list under `prefix` from its key.
pub fn continuation_did(key: &[u8], prefix: &[u8], separated: bool) -> (r: Result<
    Option<u64>,
    Error,
>)
    ensures
        r == continuation(key@, prefix@, separated),
{
    let n: usize = prefix.len();
    if key.len() < n || (separated && key.len() == n) {
        return Ok(None);
    }
    if compare_bytes(&key[0..n], prefix) != 0 {
        return Ok(None);
    }
    assert(key@.subrange(0, n as int) =~= key@.take(n as int));
    let mut pos: usize = n;
    if separated {
        if key[n] != 0 {
            return Ok(None);
        }
        pos = n + 1;
    }
    match unpack_sortable(key, &mut pos) {
        Some(did) => Ok(Some(did)),
        None => Err(Error::PostlistTruncated),
    }
}

/// The postings that the chunks behind the start of a run add to the list under `prefix`,
/// up to the chunk that is marked as the last or the first key of anything else.
pub open spec fn further(prefix: Seq<u8>, separated: bool, run: Run) -> Result<
    Seq<(u64, u32)>,
    Error,
>
    decreases run.items.len(),
{
    if run.items.len() <= 1 {
        match run.stop {
            None => Ok(Seq::empty()),
            Some(e) => Err(e),
        }
    } else {
        let next = run.rest();
        proof {
            lemma_tag_advances(next);
        }
        match next.items[0] {
            None => Err(Error::Malformed),
            Some(item) => match continuation(item.key, prefix, separated) {
                Err(e) => Err(e),
                Ok(None) => Ok(Seq::empty()),
                Ok(Some(did)) => match entries::tag_of(next) {
                    Err(e) => Err(e),
                    Ok((tag, end)) => {
                        let body = body_at(tag, 0, did);
                        match body.failure {
                            Some(e) => Err(e),
                            None => if tag[0] == LAST_CHUNK {
                                Ok(body.postings)
                            } else {
                                match further(prefix, separated, end) {
                                    Err(e) => Err(e),
                                    Ok(more) => Ok(body.postings + more),
                                }
                            },
                        }
                    },
                },
            },
        }
    }
}

/// Reading a tag ends inside the run that it starts.
pub proof fn lemma_tag_advances(run: Run)
    ensures
        entries::raw_tag(run) matches Ok((_, end)) ==> 0 < end.items.len() <= run.items.len(),
    decreases run.items.len(),
{
    if run.items.len() > 1 {
        lemma_tag_advances(run.rest());
    }
}

/// The posting list of `term`, or `None` where the table has none.
pub open spec fn postlist_of(t: TableSpec, term: Seq<u8>) -> Result<Option<PostlistSpec>, Error> {
    match table::descend(t, list_key(term), t.root, t.level) {
        Err(e) => Err(e),
        Ok((pos, exact)) => if !exact {
            Ok(None)
        } else {
            match entries::tag_of(table::run_from(t, pos)) {
                Err(e) => Err(e),
                Ok((tag, end)) => match first_chunk(tag) {
                    Err(e) => Err(e),
                    Ok((list, last)) => if last {
                        Ok(Some(list))
                    } else {
                        match further(list_key(term), term.len() > 0, end) {
                            Err(e) => Err(e),
                            Ok(more) => Ok(
                                Some(
                                    PostlistSpec {
                                        termfreq: list.termfreq,
                                        collfreq: list.collfreq,
                                        postings: list.postings + more,
                                    },
                                ),
                            ),
                        }
                    },
                },
            }
        },
    }
}

/// `done` with the postings that are still to come behind it.
spec fn appended(done: Seq<(u64, u32)>, more: Result<Seq<(u64, u32)>, Error>) -> Result<
    Seq<(u64, u32)>,
    Error,
> {
    match more {
        Ok(more) => Ok(done + more),
        Err(e) => Err(e),
    }
}

impl<'a> Table<'a> {
    /// Append the postings of the chunk behind the cursor, where it is a further chunk of
    /// the list under `prefix`. Returns whether there can be more such chunks behind it.
    fn read_chunk(
        &self,
        cur: &mut Cursor<'a>,
        prefix: &[u8],
        separated: bool,
        postings: &mut Vec<(u64, u32)>,
    ) -> (r: Result<bool, Error>)
        requires
            old(cur).wf(self@),
        ensures
            ({
                let run = table::run_from(self@, old(cur).slots());
                let rest = table::run_from(self@, final(cur).slots());
                let whole = appended(old(postings)@, further(prefix@, separated, run));
                match r {
                    Ok(true) => final(cur).wf(self@) && rest.items.len() < run.items.len() && whole
                        == appended(final(postings)@, further(prefix@, separated, rest)),
                    Ok(false) => whole == Ok::<Seq<(u64, u32)>, Error>(final(postings)@),
                    Err(e) => whole == Err::<Seq<(u64, u32)>, Error>(e),
                }
            }),
    {
        let ghost run = table::run_from(self@, cur.slots());
        let ghost before = postings@;
        assert(before + Seq::<(u64, u32)>::empty() =~= before);
        match self.next(cur) {
            Ok(true) => {},
            Ok(false) => return Ok(false),
            Err(e) => return Err(e),
        }
        proof {
            lemma_tag_advances(run.rest());
        }
        let item: LeafItemView<'a> = match self.item(cur) {
            Some(item) => item,
            None => return Err(Error::Malformed),
        };
        let did: u64 = match continuation_did(item.key, prefix, separated) {
            Ok(Some(did)) => did,
            Ok(None) => return Ok(false),
            Err(e) => return Err(e),
        };
        let tag: Vec<u8> = match self.read_tag(cur) {
            Ok(tag) => tag,
            Err(e) => return Err(e),
        };
        let mut pos: usize = 0;
        match decode_chunk_body(&tag, &mut pos, did, postings) {
            Ok(last) => {
                proof {
                    if let Ok(more) = further(
                        prefix@,
                        separated,
                        table::run_from(self@, cur.slots()),
                    ) {
                        let body = body_at(tag@, 0, did);
                        assert(before + (body.postings + more) =~= postings@ + more);
                    }
                }
                Ok(!last)
            },
            Err(e) => Err(e),
        }
    }

    /// Decode a term's posting list. The empty term stands for the list of document
    /// lengths.
    pub fn read_postlist(&self, term: &[u8]) -> (r: Result<Option<Postlist>, Error>)
        ensures
            match postlist_of(self@, term@) {
                Ok(Some(list)) => r matches Ok(Some(out)) && out@ == list,
                Ok(None) => r matches Ok(None),
                Err(e) => r == Err::<Option<Postlist>, Error>(e),
            },
    {
        let separated: bool = term.len() > 0;
        let prefix: Vec<u8> = if separated {
            escape_nuls(term)
        } else {
            vec![0x00, 0xe0]
        };
        assert(prefix@ =~= list_key(term@));
        let (mut cur, exact): (Cursor<'a>, bool) = match self.find(&prefix) {
            Ok(found) => found,
            Err(e) => return Err(e),
        };
        if !exact {
            return Ok(None);
        }
        let tag: Vec<u8> = match self.read_tag(&mut cur) {
            Ok(tag) => tag,
            Err(e) => return Err(e),
        };
        let (list, last): (Postlist, bool) = match decode_first_chunk(&tag) {
            Ok(first) => first,
            Err(e) => return Err(e),
        };
        let Postlist { termfreq, collfreq, mut postings } = list;
        let mut more: bool = !last;
        let ghost whole: Result<Seq<(u64, u32)>, Error> = if last {
            Ok(postings@)
        } else {
            appended(
                postings@,
                further(prefix@, separated, table::run_from(self@, cur.slots())),
            )
        };
        while more
            invariant
                match postlist_of(self@, term@) {
                    Ok(None) => false,
                    Ok(Some(list)) => whole == Ok::<Seq<(u64, u32)>, Error>(list.postings)
                        && termfreq == list.termfreq && collfreq == list.collfreq,
                    Err(e) => whole == Err::<Seq<(u64, u32)>, Error>(e),
                },
                more ==> cur.wf(self@) && whole == appended(
                    postings@,
                    further(prefix@, separated, table::run_from(self@, cur.slots())),
                ),
                !more ==> whole == Ok::<Seq<(u64, u32)>, Error>(postings@),
            decreases
                    (if more {
                        table::run_from(self@, cur.slots()).items.len() + 1
                    } else {
                        0
                    }),
        {
            more =
            match self.read_chunk(&mut cur, &prefix, separated, &mut postings) {
                Ok(more) => more,
                Err(e) => return Err(e),
            };
        }
        Ok(Some(Postlist { termfreq, collfreq, postings }))
    }
}

} // verus!
