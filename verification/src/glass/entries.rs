//! Tags and keys: what a table stores, read through its leaf items.

use crate::error::Error;
use crate::glass::block::{Leaf, LeafItemView};
use crate::glass::inflate;
use crate::glass::inflate::decompress_deflate;
use crate::glass::table;
use crate::glass::table::{Cursor, Run, Slot, Table, TableSpec};
use vstd::prelude::*;
use vstd::slice::slice_to_vec;

verus! {

/// The stored bytes of the tag whose first chunk a run starts at: the chunks up to and
/// including the first that is marked as the last. Also the run from that chunk on.
pub open spec fn raw_tag(run: Run) -> Result<(Seq<u8>, Run), Error>
    decreases run.items.len(),
{
    if run.items.len() == 0 {
        Err(Error::Malformed)
    } else {
        match run.items[0] {
            None => Err(Error::Malformed),
            Some(item) => if item.last {
                Ok((item.chunk, run))
            } else if run.items.len() > 1 {
                match raw_tag(run.rest()) {
                    Ok((tail, end)) => Ok((item.chunk + tail, end)),
                    Err(e) => Err(e),
                }
            } else {
                match run.stop {
                    None => Err(Error::TagTruncated),
                    Some(e) => Err(e),
                }
            },
        }
    }
}

/// The tag whose first chunk a run starts at, decompressed where that chunk is marked as
/// compressed, and the run from the tag's last chunk on.
pub open spec fn tag_of(run: Run) -> Result<(Seq<u8>, Run), Error> {
    match raw_tag(run) {
        Err(e) => Err(e),
        Ok((raw, end)) => match inflate::unpacked(raw, run.items[0].unwrap().compressed) {
            Err(e) => Err(e),
            Ok(tag) => Ok((tag, end)),
        },
    }
}

/// The tag stored under `key`, or `None` where there is none.
pub open spec fn entry_of(t: TableSpec, key: Seq<u8>) -> Result<Option<Seq<u8>>, Error> {
    if key.len() == 0 || key.len() > 255 || t.root_is_fake {
        Ok(None)
    } else {
        match table::descend(t, key, t.root, t.level) {
            Err(e) => Err(e),
            Ok((pos, exact)) => if !exact {
                Ok(None)
            } else {
                match tag_of(table::run_from(t, pos)) {
                    Err(e) => Err(e),
                    Ok((tag, _)) => Ok(Some(tag)),
                }
            },
        }
    }
}

/// What a key dump shows of a leaf item: key, chunk length, whether it is compressed, the
/// first and the last chunk, and its chunk number.
pub type KeyRow = (Vec<u8>, usize, bool, bool, bool, i32);

/// A dumped row shows a leaf item.
pub open spec fn shows(row: KeyRow, item: Leaf) -> bool {
    &&& row.0@ == item.key
    &&& row.1 == item.chunk.len()
    &&& row.2 == item.compressed
    &&& row.3 == item.first
    &&& row.4 == item.last
    &&& row.5 == item.component
}

/// The first `limit` leaf items of a run, or all where there are fewer.
pub open spec fn dump_of(run: Run, limit: nat) -> Result<Seq<Leaf>, Error>
    decreases run.items.len(),
{
    if limit == 0 {
        Ok(Seq::empty())
    } else if run.items.len() == 0 {
        Err(Error::Malformed)
    } else {
        match run.items[0] {
            None => Err(Error::Malformed),
            Some(item) => if limit == 1 {
                Ok(seq![item])
            } else if run.items.len() > 1 {
                match dump_of(run.rest(), (limit - 1) as nat) {
                    Ok(tail) => Ok(seq![item] + tail),
                    Err(e) => Err(e),
                }
            } else {
                match run.stop {
                    None => Ok(seq![item]),
                    Some(e) => Err(e),
                }
            },
        }
    }
}

/// The first `limit` leaf items of a run that are first chunks, or all where there are
/// fewer.
pub open spec fn first_chunks(run: Run, limit: nat) -> Result<Seq<Leaf>, Error>
    decreases run.items.len(),
{
    if limit == 0 {
        Ok(Seq::empty())
    } else if run.items.len() == 0 {
        Err(Error::Malformed)
    } else {
        match run.items[0] {
            None => Err(Error::Malformed),
            Some(item) => {
                let here = if item.first {
                    seq![item]
                } else {
                    Seq::empty()
                };
                let left = (limit - here.len()) as nat;
                if left == 0 {
                    Ok(here)
                } else if run.items.len() > 1 {
                    match first_chunks(run.rest(), left) {
                        Ok(tail) => Ok(here + tail),
                        Err(e) => Err(e),
                    }
                } else {
                    match run.stop {
                        None => Ok(here),
                        Some(e) => Err(e),
                    }
                }
            },
        }
    }
}

/// The position of the first leaf item behind a search that ended on `pos` without
/// finding its key: the next position or, where the search ended before the first item
/// of a leaf, that item.
pub open spec fn step_behind(t: TableSpec, pos: Seq<Slot>) -> Result<Option<Seq<Slot>>, Error> {
    if pos[0].c < 11 {
        Ok(Some(pos.update(0, Slot { n: pos[0].n, c: 11 })))
    } else {
        table::advance(t, pos, 0)
    }
}

/// The first `limit` first chunks from the first key at or behind `start` on.
pub open spec fn keys_from(t: TableSpec, start: Seq<u8>, limit: nat) -> Result<Seq<Leaf>, Error> {
    if t.root_is_fake {
        Ok(Seq::empty())
    } else {
        match table::descend(t, start, t.root, t.level) {
            Err(e) => Err(e),
            Ok((pos, exact)) => if exact {
                first_chunks(table::run_from(t, pos), limit)
            } else {
                match step_behind(t, pos) {
                    Err(e) => Err(e),
                    Ok(None) => Ok(Seq::empty()),
                    Ok(Some(next)) => first_chunks(table::run_from(t, next), limit),
                }
            },
        }
    }
}

impl<'a> Table<'a> {
    /// Read (and decompress if needed) the tag whose first chunk the cursor is at. The
    /// cursor ends on the tag's last chunk.
    pub(crate) fn read_tag(&self, cur: &mut Cursor<'a>) -> (r: Result<Vec<u8>, Error>)
        requires
            old(cur).wf(self@),
        ensures
            match tag_of(table::run_from(self@, old(cur).slots())) {
                Ok((tag, end)) => r matches Ok(out) && out@ == tag && final(cur).wf(self@)
                    && table::run_from(self@, final(cur).slots()) == end,
                Err(e) => r == Err::<Vec<u8>, Error>(e),
            },
    {
        let ghost start = table::run_from(self@, cur.slots());
        let compressed: bool = match self.item(cur) {
            Some(item) => item.compressed,
            None => return Err(Error::Malformed),
        };
        let mut raw: Vec<u8> = Vec::new();
        proof {
            if let Ok((tail, end)) = raw_tag(start) {
                assert(Seq::<u8>::empty() + tail =~= tail);
            }
        }
        loop
            invariant
                cur.wf(self@),
                start.items[0] matches Some(item) && item.compressed == compressed,
                start == table::run_from(self@, old(cur).slots()),
                raw_tag(start) == (match raw_tag(table::run_from(self@, cur.slots())) {
                    Ok((tail, end)) => Ok((raw@ + tail, end)),
                    Err(e) => Err(e),
                }),
            decreases table::run_from(self@, cur.slots()).items.len(),
        {
            let ghost run = table::run_from(self@, cur.slots());
            let ghost before = raw@;
            let item: LeafItemView<'a> = match self.item(cur) {
                Some(item) => item,
                None => return Err(Error::Malformed),
            };
            raw.extend_from_slice(item.chunk);
            assert(raw@ =~= before + item@.chunk);
            if item.last {
                return if compressed {
                    decompress_deflate(&raw)
                } else {
                    Ok(raw)
                };
            }
            match self.next(cur) {
                Ok(true) => {},
                Ok(false) => return Err(Error::TagTruncated),
                Err(e) => return Err(e),
            }
            proof {
                if let Ok((tail, end)) = raw_tag(run.rest()) {
                    assert(before + (item@.chunk + tail) =~= raw@ + tail);
                }
            }
        }
    }

    /// Look up an exact key. Returns the (decompressed) tag bytes, or None.
    pub fn get_exact_entry(&self, key: &[u8]) -> (r: Result<Option<Vec<u8>>, Error>)
        ensures
            match entry_of(self@, key@) {
                Ok(Some(tag)) => r matches Ok(Some(out)) && out@ == tag,
                Ok(None) => r matches Ok(None),
                Err(e) => r == Err::<Option<Vec<u8>>, Error>(e),
            },
    {
        if key.len() == 0 || key.len() > 255 || self.root_is_fake {
            return Ok(None);
        }
        let (mut cur, exact): (Cursor<'a>, bool) = match self.find(key) {
            Ok(found) => found,
            Err(e) => return Err(e),
        };
        if !exact {
            return Ok(None);
        }
        match self.read_tag(&mut cur) {
            Ok(tag) => Ok(Some(tag)),
            Err(e) => Err(e),
        }
    }

    /// Dump up to `limit` (key, tag_len, compressed, first, last, component) tuples.
    pub fn dump_keys(&self, limit: usize) -> (r: Result<Vec<KeyRow>, Error>)
        ensures
            ({
                let spec = if self@.root_is_fake {
                    Ok(Seq::empty())
                } else {
                    match table::leftmost(self@, self@.root, self@.level) {
                        Err(e) => Err(e),
                        Ok(pos) => dump_of(table::run_from(self@, pos), limit as nat),
                    }
                };
                match spec {
                    Ok(items) => r matches Ok(rows) && rows@.len() == items.len() && forall|i: int|
                        0 <= i < items.len() ==> shows(#[trigger] rows@[i], items[i]),
                    Err(e) => r == Err::<Vec<KeyRow>, Error>(e),
                }
            }),
    {
        let mut out: Vec<KeyRow> = Vec::new();
        if self.root_is_fake {
            return Ok(out);
        }
        let mut cur: Cursor<'a> = match self.cursor_to_first() {
            Ok(cur) => cur,
            Err(e) => return Err(e),
        };
        if limit == 0 {
            return Ok(out);
        }
        let ghost start = table::run_from(self@, cur.slots());
        let ghost shown: Seq<Leaf> = Seq::empty();
        proof {
            if let Ok(tail) = dump_of(start, limit as nat) {
                assert(shown + tail =~= tail);
            }
        }
        loop
            invariant
                cur.wf(self@),
                out@.len() < limit,
                out@.len() == shown.len(),
                forall|i: int| 0 <= i < shown.len() ==> shows(#[trigger] out@[i], shown[i]),
                !self@.root_is_fake,
                table::leftmost(self@, self@.root, self@.level) matches Ok(pos) && start
                    == table::run_from(self@, pos),
                dump_of(start, limit as nat) == (match dump_of(
                    table::run_from(self@, cur.slots()),
                    (limit - out@.len()) as nat,
                ) {
                    Ok(tail) => Ok(shown + tail),
                    Err(e) => Err(e),
                }),
            decreases table::run_from(self@, cur.slots()).items.len(),
        {
            let ghost run = table::run_from(self@, cur.slots());
            let ghost before = shown;
            let ghost left = (limit - out@.len() - 1) as nat;
            let item: LeafItemView<'a> = match self.item(&cur) {
                Some(item) => item,
                None => return Err(Error::Malformed),
            };
            out.push(
                (
                    slice_to_vec(item.key),
                    item.chunk.len(),
                    item.compressed,
                    item.first,
                    item.last,
                    item.component_of,
                ),
            );
            proof {
                shown = before.push(item@);
                assert(before + seq![item@] =~= shown);
            }
            if out.len() >= limit {
                return Ok(out);
            }
            match self.next(&mut cur) {
                Ok(true) => {},
                Ok(false) => return Ok(out),
                Err(e) => return Err(e),
            }
            proof {
                if let Ok(tail) = dump_of(run.rest(), left) {
                    assert(before + (seq![item@] + tail) =~= shown + tail);
                }
            }
        }
    }

    /// Dump up to `limit` keys, with the length of their first chunk, starting at the
    /// first key at or behind `start`.
    pub fn dump_keys_from(&self, start: &[u8], limit: usize) -> (r: Result<
        Vec<(Vec<u8>, usize)>,
        Error,
    >)
        ensures
            match keys_from(self@, start@, limit as nat) {
                Ok(items) => r matches Ok(rows) && rows@.len() == items.len() && forall|i: int|
                    0 <= i < items.len() ==> (#[trigger] rows@[i]).0@ == items[i].key && rows@[i].1
                        == items[i].chunk.len(),
                Err(e) => r == Err::<Vec<(Vec<u8>, usize)>, Error>(e),
            },
    {
        let mut out: Vec<(Vec<u8>, usize)> = Vec::new();
        if self.root_is_fake {
            return Ok(out);
        }
        let (mut cur, exact): (Cursor<'a>, bool) = match self.find(start) {
            Ok(found) => found,
            Err(e) => return Err(e),
        };
        if !exact {
            if self.before_first(&cur) {
                self.to_leaf_start(&mut cur);
            } else {
                match self.step(&mut cur) {
                    Ok(true) => {},
                    Ok(false) => return Ok(out),
                    Err(e) => return Err(e),
                }
            }
        }
        if limit == 0 {
            return Ok(out);
        }
        let ghost from = table::run_from(self@, cur.slots());
        let ghost shown: Seq<Leaf> = Seq::empty();
        proof {
            if let Ok(tail) = first_chunks(from, limit as nat) {
                assert(shown + tail =~= tail);
            }
        }
        loop
            invariant
                cur.wf(self@),
                out@.len() < limit,
                out@.len() == shown.len(),
                forall|i: int|
                    0 <= i < shown.len() ==> (#[trigger] out@[i]).0@ == shown[i].key && out@[i].1
                        == shown[i].chunk.len(),
                keys_from(self@, start@, limit as nat) == first_chunks(from, limit as nat),
                first_chunks(from, limit as nat) == (match first_chunks(
                    table::run_from(self@, cur.slots()),
                    (limit - out@.len()) as nat,
                ) {
                    Ok(tail) => Ok(shown + tail),
                    Err(e) => Err(e),
                }),
            decreases table::run_from(self@, cur.slots()).items.len(),
        {
            let ghost run = table::run_from(self@, cur.slots());
            let ghost before = shown;
            let item: LeafItemView<'a> = match self.item(&cur) {
                Some(item) => item,
                None => return Err(Error::Malformed),
            };
            let ghost here = if item.first {
                seq![item@]
            } else {
                Seq::empty()
            };
            if item.first {
                out.push((slice_to_vec(item.key), item.chunk.len()));
            }
            proof {
                shown = before + here;
            }
            if out.len() >= limit {
                return Ok(out);
            }
            let ghost left = (limit - out@.len()) as nat;
            match self.next(&mut cur) {
                Ok(true) => {},
                Ok(false) => return Ok(out),
                Err(e) => return Err(e),
            }
            proof {
                if let Ok(tail) = first_chunks(run.rest(), left) {
                    assert(before + (here + tail) =~= shown + tail);
                }
            }
        }
    }
}

} // verus!
