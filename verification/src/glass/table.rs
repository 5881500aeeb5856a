//! Tables: B-trees of blocks, and cursors over their leaf items.

use crate::error::Error;
use crate::glass::block;
use crate::glass::block::{
    bitem_block_given_by, find_in_branch, find_in_leaf, leaf_item, Block, Leaf, LeafItemView,
    DIR_START,
};
use crate::glass::version::RootInfo;
use vstd::prelude::*;

verus! {

/// A single table within the single-file glass database.
pub struct Table<'a> {
    /// The whole file; blocks are slices of it.
    pub file: &'a [u8],
    /// The offset at which the database starts in the file.
    pub base: usize,
    pub block_size: usize,
    pub root: u64,
    pub level: u32,
    pub num_entries: u64,
    pub sequential: bool,
    pub root_is_fake: bool,
    pub compress_min: u32,
    pub name: &'static str,
}

/// What reading a table depends on.
pub struct TableSpec {
    pub file: Seq<u8>,
    pub base: nat,
    pub block_size: nat,
    pub root: u64,
    pub level: nat,
    pub root_is_fake: bool,
    pub name: &'static str,
}

impl<'a> View for Table<'a> {
    type V = TableSpec;

    open spec fn view(&self) -> TableSpec {
        TableSpec {
            file: self.file@,
            base: self.base as nat,
            block_size: self.block_size as nat,
            root: self.root,
            level: self.level as nat,
            root_is_fake: self.root_is_fake,
            name: self.name,
        }
    }
}

/// One level of a position in a table: a block and the offset of a directory slot in it.
pub struct Slot {
    pub n: u64,
    pub c: int,
}

/// The bytes of block `n`, or `None` where the block does not lie inside the file.
pub open spec fn block_at(t: TableSpec, n: u64) -> Option<Seq<u8>> {
    let start = t.base + n * t.block_size;
    let end = start + t.block_size;
    if end <= t.file.len() {
        Some(t.file.subrange(start, end))
    } else {
        None
    }
}

/// The failure to find block `n`.
pub open spec fn out_of_range(t: TableSpec, n: u64) -> Error {
    Error::BlockOutOfRange { block: n, table: t.name }
}

/// Descending from block `n` at level `j` towards `key`: the slot reached on each level,
/// leaf level first, and whether the leaf item is the first chunk under `key`.
pub open spec fn descend(t: TableSpec, key: Seq<u8>, n: u64, j: nat) -> Result<
    (Seq<Slot>, bool),
    Error,
>
    decreases j,
{
    match block_at(t, n) {
        None => Err(out_of_range(t, n)),
        Some(d) => if d.len() < DIR_START {
            Err(Error::Malformed)
        } else if j == 0 {
            match block::chop(d, key, 9, block::dir_end(d), true) {
                None => Err(Error::Malformed),
                Some((c, exact)) => Ok((seq![Slot { n, c }], exact)),
            }
        } else {
            match block::chop(d, key, 11, block::dir_end(d), false) {
                None => Err(Error::Malformed),
                Some((c, _)) => match block::child_at(d, c) {
                    None => Err(Error::Malformed),
                    Some(child) => match descend(t, key, child, (j - 1) as nat) {
                        Err(e) => Err(e),
                        Ok((below, exact)) => Ok((below.push(Slot { n, c }), exact)),
                    },
                },
            }
        },
    }
}

/// Descending from block `n` at level `j` to the leftmost leaf item.
pub open spec fn leftmost(t: TableSpec, n: u64, j: nat) -> Result<Seq<Slot>, Error>
    decreases j,
{
    match block_at(t, n) {
        None => Err(out_of_range(t, n)),
        Some(d) => if j == 0 {
            Ok(seq![Slot { n, c: 11 }])
        } else {
            match block::child_at(d, 11) {
                None => Err(Error::Malformed),
                Some(child) => match leftmost(t, child, (j - 1) as nat) {
                    Err(e) => Err(e),
                    Ok(below) => Ok(below.push(Slot { n, c: 11 })),
                },
            }
        },
    }
}

/// The next position behind `pos` at level `j`: the next slot of the block on that level
/// or, behind its last slot, the first slot of the next block. `None` behind the last
/// slot of the table.
pub open spec fn advance(t: TableSpec, pos: Seq<Slot>, j: int) -> Result<Option<Seq<Slot>>, Error>
    decreases pos.len() - j,
{
    if j < 0 || j >= pos.len() {
        Ok(None)
    } else {
        match block_at(t, pos[j].n) {
            None => Err(Error::Malformed),
            Some(d) => if d.len() < DIR_START {
                Err(Error::Malformed)
            } else if pos[j].c + 2 < block::dir_end(d) {
                enter(t, pos, j, pos[j].c + 2)
            } else {
                match advance(t, pos, j + 1) {
                    Ok(Some(up)) => enter(t, up, j, 11),
                    other => other,
                }
            },
        }
    }
}

/// Moving to the slot at offset `c` on level `j`, and to the first slot of the child
/// block that it points to.
pub open spec fn enter(t: TableSpec, pos: Seq<Slot>, j: int, c: int) -> Result<
    Option<Seq<Slot>>,
    Error,
> {
    let here = pos.update(j, Slot { n: pos[j].n, c });
    if j == 0 {
        Ok(Some(here))
    } else {
        match block_at(t, pos[j].n) {
            None => Err(Error::Malformed),
            Some(d) => match block::child_at(d, c) {
                None => Err(Error::Malformed),
                Some(child) => match block_at(t, child) {
                    None => Err(out_of_range(t, child)),
                    Some(_) => Ok(Some(here.update(j - 1, Slot { n: child, c: 11 }))),
                },
            },
        }
    }
}

/// The leaf item at a position.
pub open spec fn item_at(t: TableSpec, pos: Seq<Slot>) -> Option<Leaf> {
    match block_at(t, pos[0].n) {
        None => None,
        Some(d) => block::leaf_at(d, pos[0].c),
    }
}

/// A position whose slots lie where slots can lie.
pub open spec fn slots_ok(pos: Seq<Slot>) -> bool {
    &&& pos.len() > 0
    &&& forall|k: int| 0 <= k < pos.len() ==> 9 <= #[trigger] pos[k].c <= 0xffff
}

/// How much of a table can still lie behind a position, counting from level `j` up.
pub open spec fn weight(pos: Seq<Slot>, j: int) -> int
    decreases pos.len() - j,
{
    if j < 0 || j >= pos.len() {
        0
    } else {
        weight(pos, j + 1) * 0x1_0000 + (0x1_0000 - pos[j].c)
    }
}

/// The leaf items from a position on, `None` for one that does not lie inside its block,
/// and what stops the walk: nothing at the end of the table, or a failure to advance.
pub struct Run {
    pub items: Seq<Option<Leaf>>,
    pub stop: Option<Error>,
}

impl Run {
    /// The run from the next item on.
    pub open spec fn rest(self) -> Run {
        Run { items: self.items.drop_first(), stop: self.stop }
    }
}

/// The run from a position on.
pub open spec fn run_from(t: TableSpec, pos: Seq<Slot>) -> Run
    decreases weight(pos, 0),
    when slots_ok(pos)
    via run_from_decreases
{
    match advance(t, pos, 0) {
        Err(e) => Run { items: seq![item_at(t, pos)], stop: Some(e) },
        Ok(None) => Run { items: seq![item_at(t, pos)], stop: None },
        Ok(Some(next)) => {
            let rest = run_from(t, next);
            Run { items: seq![item_at(t, pos)] + rest.items, stop: rest.stop }
        },
    }
}

#[via_fn]
proof fn run_from_decreases(t: TableSpec, pos: Seq<Slot>) {
    lemma_advance(t, pos, 0);
    if let Ok(Some(next)) = advance(t, pos, 0) {
        lemma_weight_nonnegative(next, 0);
    }
}

proof fn lemma_weight_nonnegative(pos: Seq<Slot>, j: int)
    requires
        slots_ok(pos),
    ensures
        weight(pos, j) >= 0,
    decreases pos.len() - j,
{
    if 0 <= j < pos.len() {
        lemma_weight_nonnegative(pos, j + 1);
    }
}

proof fn lemma_weight_update(pos: Seq<Slot>, k: int, s: Slot, j: int)
    requires
        0 <= k < j,
        k < pos.len(),
    ensures
        weight(pos.update(k, s), j) == weight(pos, j),
    decreases pos.len() - j,
{
    if j < pos.len() {
        lemma_weight_update(pos, k, s, j + 1);
    }
}

/// Entering a slot keeps the levels above and stays where slots can lie.
proof fn lemma_enter(t: TableSpec, pos: Seq<Slot>, j: int, c: int)
    requires
        slots_ok(pos),
        0 <= j < pos.len(),
        9 <= c <= 0xffff,
    ensures
        enter(t, pos, j, c) matches Ok(Some(p)) ==> {
            &&& slots_ok(p)
            &&& p.len() == pos.len()
            &&& weight(p, j) == weight(pos, j + 1) * 0x1_0000 + (0x1_0000 - c)
            &&& forall|k: int| j < k < pos.len() ==> p[k] == pos[k]
            &&& p[j] == (Slot { n: pos[j].n, c })
        },
        enter(t, pos, j, c) != Ok::<Option<Seq<Slot>>, Error>(None),
{
    if let Ok(Some(p)) = enter(t, pos, j, c) {
        let here = pos.update(j, Slot { n: pos[j].n, c });
        lemma_weight_update(pos, j, Slot { n: pos[j].n, c }, j + 1);
        if j > 0 {
            lemma_weight_update(here, j - 1, p[j - 1], j);
        }
    }
}

/// Advancing leaves less behind and stays where slots can lie.
pub proof fn lemma_advance(t: TableSpec, pos: Seq<Slot>, j: int)
    requires
        slots_ok(pos),
        0 <= j < pos.len(),
    ensures
        advance(t, pos, j) matches Ok(Some(p)) ==> {
            &&& slots_ok(p)
            &&& p.len() == pos.len()
            &&& weight(p, j) < weight(pos, j)
        },
    decreases pos.len() - j,
{
    if let Some(d) = block_at(t, pos[j].n) {
        if d.len() >= DIR_START {
            if pos[j].c + 2 < block::dir_end(d) {
                lemma_enter(t, pos, j, pos[j].c + 2);
            } else if j + 1 < pos.len() {
                lemma_advance(t, pos, j + 1);
                if let Ok(Some(up)) = advance(t, pos, j + 1) {
                    lemma_enter(t, up, j, 11);
                }
            }
        }
    }
}

/// One level of a cursor.
#[derive(Clone, Copy)]
struct CursorLevel<'a> {
    n: u64,
    block: Option<Block<'a>>,
    c: i32,
}

/// A position in a table.
pub struct Cursor<'a> {
    levels: Vec<CursorLevel<'a>>,
}

impl<'a> Cursor<'a> {
    /// The slots of the position, leaf level first.
    pub closed spec fn slots(self) -> Seq<Slot> {
        Seq::new(
            self.levels@.len(),
            |j: int| Slot { n: self.levels@[j].n, c: self.levels@[j].c as int },
        )
    }

    /// Every level holds the block that it names, and a slot that can lie in it.
    pub closed spec fn wf(self, t: TableSpec) -> bool {
        &&& self.levels@.len() == t.level + 1
        &&& slots_ok(self.slots())
        &&& forall|j: int| 0 <= j < self.levels@.len() ==> #[trigger] loaded(t, self.levels@[j])
    }
}

/// The level holds the block that it names.
spec fn loaded(t: TableSpec, l: CursorLevel) -> bool {
    l.block matches Some(b) && block_at(t, l.n) == Some(b.data@)
}

impl<'a> Table<'a> {
    /// The table that `info` describes, in the database that starts at `base` of `file`.
    pub fn new(file: &'a [u8], base: usize, info: &RootInfo, name: &'static str) -> (r: Table<'a>)
        ensures
            r@ == (TableSpec {
                file: file@,
                base: base as nat,
                block_size: info.blocksize as nat,
                root: info.root,
                level: info.level as nat,
                root_is_fake: info.root_is_fake,
                name,
            }),
            r.block_size == info.blocksize,
            r.root == info.root,
            r.level == info.level,
            r.num_entries == info.num_entries,
            r.sequential == info.sequential,
            r.root_is_fake == info.root_is_fake,
            r.compress_min == info.compress_min,
            r.name == name,
    {
        Table {
            file,
            base,
            block_size: info.blocksize as usize,
            root: info.root,
            level: info.level,
            num_entries: info.num_entries,
            sequential: info.sequential,
            root_is_fake: info.root_is_fake,
            compress_min: info.compress_min,
            name,
        }
    }

    /// Read block `n`, which starts `n` block sizes behind the start of the database.
    pub fn block(&self, n: u64) -> (r: Result<Block<'a>, Error>)
        ensures
            match block_at(self@, n) {
                Some(d) => r matches Ok(b) && b.data@ == d,
                None => r == Err::<Block<'a>, Error>(out_of_range(self@, n)),
            },
    {
        let failure: Error = Error::BlockOutOfRange { block: n, table: self.name };
        let len: u64 = self.file.len() as u64;
        let skip: u64 = match n.checked_mul(self.block_size as u64) {
            Some(skip) => skip,
            None => return Err(failure),
        };
        let start: u64 = match skip.checked_add(self.base as u64) {
            Some(start) => start,
            None => return Err(failure),
        };
        if start > len || self.block_size as u64 > len - start {
            return Err(failure);
        }
        let start: usize = start as usize;
        Ok(Block { data: &self.file[start..start + self.block_size] })
    }

    /// A cursor of which only the top level is loaded, with the root.
    fn new_cursor(&self) -> (r: Result<Cursor<'a>, Error>)
        ensures
            match block_at(self@, self@.root) {
                Some(_) => r matches Ok(cur) && cur.levels@.len() == self@.level + 1
                    && cur.levels@[self@.level as int].n == self@.root && loaded(
                    self@,
                    cur.levels@[self@.level as int],
                ),
                None => r == Err::<Cursor<'a>, Error>(out_of_range(self@, self@.root)),
            },
    {
        let mut levels: Vec<CursorLevel<'a>> = Vec::new();
        let mut k: u32 = 0;
        while k < self.level
            invariant
                levels@.len() == k,
                k <= self.level,
            decreases self.level - k,
        {
            levels.push(CursorLevel { n: u64::MAX, block: None, c: -1 });
            k += 1;
        }
        match self.block(self.root) {
            Ok(b) => {
                levels.push(CursorLevel { n: self.root, block: Some(b), c: -1 });
                Ok(Cursor { levels })
            },
            Err(e) => Err(e),
        }
    }

    /// Descend from the root to the leaf for `key`. The cursor ends on the last key at or
    /// before `key`; the flag tells whether that is `key`.
    #[verifier::rlimit(60)]
    pub(crate) fn find(&self, key: &[u8]) -> (r: Result<(Cursor<'a>, bool), Error>)
        ensures
            match descend(self@, key@, self@.root, self@.level) {
                Ok((pos, exact)) => r matches Ok((cur, flag)) && cur.wf(self@) && cur.slots() == pos
                    && flag == exact,
                Err(e) => r == Err::<(Cursor<'a>, bool), Error>(e),
            },
    {
        let ghost t = self@;
        let mut cur: Cursor<'a> = match self.new_cursor() {
            Ok(cur) => cur,
            Err(e) => return Err(e),
        };
        let mut j: usize = self.level as usize;
        let ghost above: Seq<Slot> = Seq::empty();
        while j > 0
            invariant
                t == self@,
                j <= t.level,
                cur.levels@.len() == t.level + 1,
                above.len() == t.level - j,
                forall|k: int|
                    j < k <= t.level ==> loaded(t, #[trigger] cur.levels@[k]) && above[k - j - 1] == (
                    Slot { n: cur.levels@[k].n, c: cur.levels@[k].c as int }) && 9
                        <= cur.levels@[k].c <= 0xffff,
                loaded(t, cur.levels@[j as int]),
                descend(t, key@, t.root, t.level) == (match descend(
                    t,
                    key@,
                    cur.levels@[j as int].n,
                    j as nat,
                ) {
                    Ok((below, exact)) => Ok((below + above, exact)),
                    Err(e) => Err(e),
                }),
            decreases j,
        {
            let n: u64 = cur.levels[j].n;
            let blk: Block<'a> = cur.levels[j].block.unwrap();
            if blk.data.len() < DIR_START {
                return Err(Error::Malformed);
            }
            let c: i32 = match find_in_branch(&blk, key) {
                Some(c) => c,
                None => return Err(Error::Malformed),
            };
            let child: u64 = match bitem_block_given_by(&blk, c as usize) {
                Some(child) => child,
                None => return Err(Error::Malformed),
            };
            let b: Block<'a> = match self.block(child) {
                Ok(b) => b,
                Err(e) => {
                    assert(descend(t, key@, child, (j - 1) as nat) == Err::<
                        (Seq<Slot>, bool),
                        Error,
                    >(e));
                    return Err(e);
                },
            };
            let ghost old_above = above;
            proof {
                above = seq![Slot { n, c: c as int }] + above;
            }
            cur.levels[j] = CursorLevel { n, block: Some(blk), c };
            cur.levels[j - 1] = CursorLevel { n: child, block: Some(b), c: -1 };
            j = j - 1;
            proof {
                if let Ok((below, exact)) = descend(t, key@, child, j as nat) {
                    assert(below.push(Slot { n, c: c as int }) + old_above =~= below + above);
                }
            }
        }
        let n: u64 = cur.levels[0].n;
        let leaf: Block<'a> = cur.levels[0].block.unwrap();
        if leaf.data.len() < DIR_START {
            return Err(Error::Malformed);
        }
        match find_in_leaf(&leaf, key) {
            None => Err(Error::Malformed),
            Some((c, exact)) => {
                cur.levels[0] = CursorLevel { n, block: Some(leaf), c };
                assert(cur.slots() =~= seq![Slot { n, c: c as int }] + above);
                Ok((cur, exact))
            },
        }
    }

    /// Position a cursor at the first (leftmost) entry in the table.
    #[verifier::rlimit(40)]
    pub fn cursor_to_first(&self) -> (r: Result<Cursor<'a>, Error>)
        ensures
            match leftmost(self@, self@.root, self@.level) {
                Ok(pos) => r matches Ok(cur) && cur.wf(self@) && cur.slots() == pos,
                Err(e) => r == Err::<Cursor<'a>, Error>(e),
            },
    {
        let ghost t = self@;
        let mut cur: Cursor<'a> = match self.new_cursor() {
            Ok(cur) => cur,
            Err(e) => return Err(e),
        };
        let mut j: usize = self.level as usize;
        let ghost above: Seq<Slot> = Seq::empty();
        while j > 0
            invariant
                t == self@,
                j <= t.level,
                cur.levels@.len() == t.level + 1,
                above.len() == t.level - j,
                forall|k: int|
                    j < k <= t.level ==> loaded(t, #[trigger] cur.levels@[k]) && above[k - j - 1] == (
                    Slot { n: cur.levels@[k].n, c: cur.levels@[k].c as int }) && cur.levels@[k].c
                        == 11,
                loaded(t, cur.levels@[j as int]),
                leftmost(t, t.root, t.level) == (match leftmost(
                    t,
                    cur.levels@[j as int].n,
                    j as nat,
                ) {
                    Ok(below) => Ok(below + above),
                    Err(e) => Err(e),
                }),
            decreases j,
        {
            let n: u64 = cur.levels[j].n;
            let blk: Block<'a> = cur.levels[j].block.unwrap();
            let child: u64 = match bitem_block_given_by(&blk, DIR_START) {
                Some(child) => child,
                None => return Err(Error::Malformed),
            };
            let b: Block<'a> = match self.block(child) {
                Ok(b) => b,
                Err(e) => {
                    assert(leftmost(t, child, (j - 1) as nat) == Err::<Seq<Slot>, Error>(e));
                    return Err(e);
                },
            };
            let ghost old_above = above;
            proof {
                above = seq![Slot { n, c: 11 }] + above;
            }
            cur.levels[j] = CursorLevel { n, block: Some(blk), c: 11 };
            cur.levels[j - 1] = CursorLevel { n: child, block: Some(b), c: -1 };
            j = j - 1;
            proof {
                if let Ok(below) = leftmost(t, child, j as nat) {
                    assert(below.push(Slot { n, c: 11 }) + old_above =~= below + above);
                }
            }
        }
        let n: u64 = cur.levels[0].n;
        let leaf: Block<'a> = cur.levels[0].block.unwrap();
        cur.levels[0] = CursorLevel { n, block: Some(leaf), c: 11 };
        assert(cur.slots() =~= seq![Slot { n, c: 11 }] + above);
        Ok(cur)
    }

    /// Advance the cursor at level `j` to the next item.
    #[verifier::rlimit(40)]
    fn next_default(&self, cur: &mut Cursor<'a>, j: usize) -> (r: Result<bool, Error>)
        requires
            old(cur).wf(self@),
            j <= self@.level,
        ensures
            match advance(self@, old(cur).slots(), j as int) {
                Ok(Some(p)) => r == Ok::<bool, Error>(true) && final(cur).wf(self@)
                    && final(cur).slots() == p,
                Ok(None) => r == Ok::<bool, Error>(false) && *final(cur) == *old(cur),
                Err(e) => r == Err::<bool, Error>(e),
            },
        decreases self@.level - j,
    {
        let ghost t = self@;
        let ghost before = cur.slots();
        proof {
            lemma_advance(t, before, j as int);
            assert(loaded(t, cur.levels@[j as int]));
        }
        let blk: Block<'a> = cur.levels[j].block.unwrap();
        if blk.data.len() < DIR_START {
            return Err(Error::Malformed);
        }
        let mut c: i32 = cur.levels[j].c + 2;
        if c >= blk.dir_end() as i32 {
            if j == self.level as usize {
                assert(advance(t, before, j + 1) == Ok::<Option<Seq<Slot>>, Error>(None));
                return Ok(false);
            }
            proof {
                lemma_advance(t, before, j + 1);
            }
            match self.next_default(cur, j + 1) {
                Ok(true) => {},
                other => return other,
            }
            c = 11;
        }
        let ghost up = cur.slots();
        proof {
            assert(loaded(t, cur.levels@[j as int]));
            lemma_enter(t, up, j as int, c as int);
        }
        let n: u64 = cur.levels[j].n;
        let parent: Block<'a> = cur.levels[j].block.unwrap();
        if j > 0 {
            let child: u64 = match bitem_block_given_by(&parent, c as usize) {
                Some(child) => child,
                None => return Err(Error::Malformed),
            };
            let b: Block<'a> = match self.block(child) {
                Ok(b) => b,
                Err(e) => return Err(e),
            };
            cur.levels[j] = CursorLevel { n, block: Some(parent), c };
            cur.levels[j - 1] = CursorLevel { n: child, block: Some(b), c: 11 };
            assert(cur.slots() =~= up.update(j as int, Slot { n, c: c as int }).update(
                j - 1,
                Slot { n: child, c: 11 },
            ));
        } else {
            cur.levels[j] = CursorLevel { n, block: Some(parent), c };
            assert(cur.slots() =~= up.update(j as int, Slot { n, c: c as int }));
        }
        Ok(true)
    }

    /// Advance the cursor to the next position.
    pub(crate) fn step(&self, cur: &mut Cursor<'a>) -> (r: Result<bool, Error>)
        requires
            old(cur).wf(self@),
        ensures
            match advance(self@, old(cur).slots(), 0) {
                Ok(Some(p)) => r == Ok::<bool, Error>(true) && final(cur).wf(self@)
                    && final(cur).slots() == p,
                Ok(None) => r == Ok::<bool, Error>(false) && *final(cur) == *old(cur),
                Err(e) => r == Err::<bool, Error>(e),
            },
    {
        self.next_default(cur, 0)
    }

    /// Advance the cursor to the next leaf item.
    pub(crate) fn next(&self, cur: &mut Cursor<'a>) -> (r: Result<bool, Error>)
        requires
            old(cur).wf(self@),
        ensures
            ({
                let run = run_from(self@, old(cur).slots());
                if run.items.len() > 1 {
                    &&& r == Ok::<bool, Error>(true)
                    &&& final(cur).wf(self@)
                    &&& run_from(self@, final(cur).slots()) == run.rest()
                } else {
                    match run.stop {
                        None => r == Ok::<bool, Error>(false) && *final(cur) == *old(cur),
                        Some(e) => r == Err::<bool, Error>(e),
                    }
                }
            }),
    {
        let ghost t = self@;
        let ghost before = cur.slots();
        let r: Result<bool, Error> = self.next_default(cur, 0);
        proof {
            lemma_advance(t, before, 0);
            if let Ok(Some(p)) = advance(t, before, 0) {
                lemma_run_nonempty(t, p);
                assert(run_from(t, before).rest().items =~= run_from(t, p).items);
            }
        }
        r
    }

    /// The leaf item at the cursor.
    pub(crate) fn item(&self, cur: &Cursor<'a>) -> (r: Option<LeafItemView<'a>>)
        requires
            cur.wf(self@),
        ensures
            run_from(self@, cur.slots()).items.len() > 0,
            match run_from(self@, cur.slots()).items[0] {
                Some(item) => r matches Some(view) && view@ == item,
                None => r is None,
            },
    {
        proof {
            lemma_run_nonempty(self@, cur.slots());
            assert(loaded(self@, cur.levels@[0]));
            lemma_advance(self@, cur.slots(), 0);
        }
        let leaf: Block<'a> = cur.levels[0].block.unwrap();
        leaf_item(&leaf, cur.levels[0].c as usize)
    }

    /// Whether the cursor stands before the first item of its leaf.
    pub(crate) fn before_first(&self, cur: &Cursor<'a>) -> (r: bool)
        requires
            cur.wf(self@),
        ensures
            r == (cur.slots()[0].c < 11),
    {
        cur.levels[0].c < 11
    }

    /// Move the cursor to the first item of its leaf.
    pub(crate) fn to_leaf_start(&self, cur: &mut Cursor<'a>)
        requires
            old(cur).wf(self@),
        ensures
            final(cur).wf(self@),
            final(cur).slots() == old(cur).slots().update(
                0,
                Slot { n: old(cur).slots()[0].n, c: 11 },
            ),
    {
        proof {
            assert(loaded(self@, cur.levels@[0]));
        }
        let ghost before = cur.slots();
        let n: u64 = cur.levels[0].n;
        let leaf: Option<Block<'a>> = cur.levels[0].block;
        cur.levels[0] = CursorLevel { n, block: leaf, c: 11 };
        assert(cur.slots() =~= before.update(0, Slot { n, c: 11 }));
    }
}

/// A run holds at least the item that it starts at.
pub proof fn lemma_run_nonempty(t: TableSpec, pos: Seq<Slot>)
    requires
        slots_ok(pos),
    ensures
        run_from(t, pos).items.len() > 0,
        run_from(t, pos).items[0] == item_at(t, pos),
{
    lemma_advance(t, pos, 0);
}

/// A table is read in place: its blocks are those of the database taken on its own.
pub proof fn law_read_in_place(t: TableSpec, n: u64)
    requires
        t.base <= t.file.len(),
    ensures
        block_at(t, n) == block_at(
            TableSpec { file: t.file.skip(t.base as int), base: 0, ..t },
            n,
        ),
{
    let alone = t.file.skip(t.base as int);
    let start = n * t.block_size;
    if t.base + start + t.block_size <= t.file.len() {
        assert(start >= 0) by (nonlinear_arith)
            requires
                start == n * t.block_size,
        ;
        assert(alone.subrange(start, start + t.block_size) =~= t.file.subrange(
            t.base + start,
            t.base + start + t.block_size,
        ));
    }
}

} // verus!
