//! The version header at the start of a single-file glass database.

use crate::error::{Error, Stat};
use crate::glass::varint;
use crate::glass::varint::{unpack_string, unpack_uint};
use vstd::prelude::*;

verus! {

/// The bytes that a glass database starts with: 0x0f, 0x0d, "Xapian Glass".
pub const GLASS_MAGIC: [u8; 14] = [
    0x0f,
    0x0d,
    0x58,
    0x61,
    0x70,
    0x69,
    0x61,
    0x6e,
    0x20,
    0x47,
    0x6c,
    0x61,
    0x73,
    0x73,
];

/// The format version of 2016-03-14: two years after 2014, then month and day.
pub const GLASS_FORMAT_VERSION: u16 = 1134;

/// Table indices.
pub const POSTLIST: usize = 0;

pub const DOCDATA: usize = 1;

pub const TERMLIST: usize = 2;

pub const POSITION: usize = 3;

pub const SPELLING: usize = 4;

pub const SYNONYM: usize = 5;

/// The names of the tables, by index.
pub const TABLE_NAMES: [&'static str; 6] = [
    "postlist",
    "docdata",
    "termlist",
    "position",
    "spelling",
    "synonym",
];

/// One table's root info.
#[derive(Debug, Clone, Copy)]
pub struct RootInfo {
    pub root: u64,
    pub level: u32,
    pub num_entries: u64,
    pub root_is_fake: bool,
    pub sequential: bool,
    pub blocksize: u32,
    pub compress_min: u32,
    /// The length of the serialised freelist, which reading does not need.
    pub fl_serialised_len: usize,
}

/// The version header.
#[derive(Debug, Clone)]
pub struct Version {
    pub format_version: u16,
    pub uuid: [u8; 16],
    pub rev: u64,
    pub roots: Vec<RootInfo>,
    pub doccount: u64,
    pub last_docid: u64,
    pub doclen_lbound: u64,
    pub wdf_ubound: u64,
    pub doclen_ubound: u64,
    pub oldest_changeset: u64,
    pub total_doclen: u64,
    pub spelling_wordfreq_ubound: u64,
}

/// What a version header says.
pub struct VersionSpec {
    pub format_version: u16,
    pub uuid: Seq<u8>,
    pub rev: u64,
    pub roots: Seq<RootInfo>,
    pub doccount: u64,
    pub last_docid: u64,
    pub doclen_lbound: u64,
    pub wdf_ubound: u64,
    pub doclen_ubound: u64,
    pub oldest_changeset: u64,
    pub total_doclen: u64,
    pub spelling_wordfreq_ubound: u64,
}

impl View for Version {
    type V = VersionSpec;

    open spec fn view(&self) -> VersionSpec {
        VersionSpec {
            format_version: self.format_version,
            uuid: self.uuid@,
            rev: self.rev,
            roots: self.roots@,
            doccount: self.doccount,
            last_docid: self.last_docid,
            doclen_lbound: self.doclen_lbound,
            wdf_ubound: self.wdf_ubound,
            doclen_ubound: self.doclen_ubound,
            oldest_changeset: self.oldest_changeset,
            total_doclen: self.total_doclen,
            spelling_wordfreq_ubound: self.spelling_wordfreq_ubound,
        }
    }
}

/// The root info that five numbers and a serialised freelist stand for. The second
/// number holds the level above two flag bits; the fourth is the block size in units
/// of 2048 bytes; a compression threshold of 4 stands for the default of 8. Level, block
/// size and threshold are taken modulo 2^32.
pub open spec fn root_of(v: Seq<u64>, freelist: Seq<u8>) -> RootInfo {
    let threshold = (v[4] % 0x1_0000_0000) as u32;
    RootInfo {
        root: v[0],
        level: ((v[1] / 4) % 0x1_0000_0000) as u32,
        num_entries: v[2],
        root_is_fake: v[1] % 2 == 1,
        sequential: (v[1] / 2) % 2 == 1,
        blocksize: ((v[3] * 2048) % 0x1_0000_0000) as u32,
        compress_min: if threshold == 4 {
            8
        } else {
            threshold
        },
        fl_serialised_len: freelist.len() as usize,
    }
}

/// The root info at offset `pos` and the offset just behind it.
pub open spec fn root_at(buf: Seq<u8>, pos: int) -> Option<(RootInfo, int)> {
    match varint::u64s_at(buf, pos, 5) {
        Some((v, mid)) => match varint::string_at(buf, mid) {
            Some((freelist, end)) => Some((root_of(v, freelist), end)),
            None => None,
        },
        None => None,
    }
}

/// The offset that an attempt to read root info at `pos` leaves behind.
pub open spec fn root_end(buf: Seq<u8>, pos: int) -> int {
    match root_at(buf, pos) {
        Some((_, end)) => end,
        None => match varint::u64s_at(buf, pos, 5) {
            Some((_, mid)) => varint::uint_end(buf, mid),
            None => varint::u64s_end(buf, pos, 5),
        },
    }
}

/// The `n` root infos from offset `pos` on and the offset just behind them.
pub open spec fn roots_at(buf: Seq<u8>, pos: int, n: nat) -> Option<(Seq<RootInfo>, int)>
    decreases n,
{
    if n == 0 {
        Some((Seq::empty(), pos))
    } else {
        match roots_at(buf, pos, (n - 1) as nat) {
            Some((before, mid)) => match root_at(buf, mid) {
                Some((info, end)) => Some((before.push(info), end)),
                None => None,
            },
            None => None,
        }
    }
}

/// The statistic at place `k` of the header.
pub open spec fn stat_at(k: nat) -> Stat {
    if k == 0 {
        Stat::DocCount
    } else if k == 1 {
        Stat::LastDocId
    } else if k == 2 {
        Stat::DocLenLower
    } else if k == 3 {
        Stat::WdfUpper
    } else if k == 4 {
        Stat::DocLenUpper
    } else if k == 5 {
        Stat::OldestChangeset
    } else if k == 6 {
        Stat::TotalDocLen
    } else {
        Stat::SpellingUpper
    }
}

/// What the version header at the start of `data` says. The last document number is
/// stored as its distance from the document count, and the upper bound of the document
/// length as its distance from that of the within-document frequency.
pub open spec fn version_at(data: Seq<u8>) -> Result<VersionSpec, Error> {
    if data.len() < 16 || data.subrange(0, 14) != GLASS_MAGIC@ {
        Err(Error::GlassMagic)
    } else if data[14] * 256 + data[15] != GLASS_FORMAT_VERSION {
        Err(Error::GlassFormat)
    } else if data.len() < 32 {
        Err(Error::Malformed)
    } else {
        match varint::u64_at(data, 32) {
            None => Err(Error::BadRevision),
            Some((rev, roots_start)) => match roots_at(data, roots_start, 6) {
                None => Err(Error::BadRootInfo),
                Some((roots, stats_start)) => match varint::u64s_at(data, stats_start, 8) {
                    None => Err(Error::BadStats(stat_at(varint::u64s_read(data, stats_start, 8)))),
                    Some((s, _)) => if s[1] + s[0] > u64::MAX || s[4] + s[3] > u64::MAX {
                        Err(Error::Malformed)
                    } else {
                        Ok(
                            VersionSpec {
                                format_version: GLASS_FORMAT_VERSION,
                                uuid: data.subrange(16, 32),
                                rev,
                                roots,
                                doccount: s[0],
                                last_docid: (s[1] + s[0]) as u64,
                                doclen_lbound: s[2],
                                wdf_ubound: s[3],
                                doclen_ubound: (s[4] + s[3]) as u64,
                                oldest_changeset: s[5],
                                total_doclen: s[6],
                                spelling_wordfreq_ubound: s[7],
                            },
                        )
                    },
                },
            },
        }
    }
}

impl RootInfo {
    /// Read the root info at `*pos`. Advances `*pos`.
    pub fn parse(buf: &[u8], pos: &mut usize) -> (r: Option<RootInfo>)
        ensures
            r == (match root_at(buf@, *old(pos) as int) {
                Some((info, _)) => Some(info),
                None => None,
            }),
            *final(pos) == root_end(buf@, *old(pos) as int),
    {
        proof {
            reveal_with_fuel(varint::u64s_at, 6);
            reveal_with_fuel(varint::u64s_end, 6);
        }
        let root: u64 = match unpack_uint(buf, pos) {
            Some(v) => v,
            None => return None,
        };
        let val: u64 = match unpack_uint(buf, pos) {
            Some(v) => v,
            None => return None,
        };
        let num_entries: u64 = match unpack_uint(buf, pos) {
            Some(v) => v,
            None => return None,
        };
        let b: u64 = match unpack_uint(buf, pos) {
            Some(v) => v,
            None => return None,
        };
        let threshold: u64 = match unpack_uint(buf, pos) {
            Some(v) => v,
            None => return None,
        };
        let fl: &[u8] = match unpack_string(buf, pos) {
            Some(s) => s,
            None => return None,
        };
        assert((b % 0x20_0000) * 2048 == (b * 2048) % 0x1_0000_0000) by (nonlinear_arith);
        let threshold: u32 = (threshold % 0x1_0000_0000) as u32;
        Some(
            RootInfo {
                root,
                level: ((val / 4) % 0x1_0000_0000) as u32,
                num_entries,
                root_is_fake: val % 2 == 1,
                sequential: (val / 2) % 2 == 1,
                blocksize: ((b % 0x20_0000) * 2048) as u32,
                compress_min: if threshold == 4 {
                    8
                } else {
                    threshold
                },
                fl_serialised_len: fl.len(),
            },
        )
    }
}

fn has_magic(data: &[u8]) -> (r: bool)
    ensures
        r == (data@.len() >= 16 && data@.subrange(0, 14) == GLASS_MAGIC@),
{
    if data.len() < 16 {
        return false;
    }
    let magic: [u8; 14] = GLASS_MAGIC;
    let mut i: usize = 0;
    while i < 14
        invariant
            i <= 14,
            data@.len() >= 16,
            magic@ == GLASS_MAGIC@,
            forall|k: int| 0 <= k < i ==> data@[k] == magic@[k],
        decreases 14 - i,
    {
        if data[i] != magic[i] {
            assert(data@.subrange(0, 14)[i as int] != magic@[i as int]);
            return false;
        }
        i += 1;
    }
    assert(data@.subrange(0, 14) =~= magic@);
    true
}

fn uuid_of(data: &[u8]) -> (r: [u8; 16])
    requires
        data@.len() >= 32,
    ensures
        r@ == data@.subrange(16, 32),
{
    let r: [u8; 16] = [
        data[16],
        data[17],
        data[18],
        data[19],
        data[20],
        data[21],
        data[22],
        data[23],
        data[24],
        data[25],
        data[26],
        data[27],
        data[28],
        data[29],
        data[30],
        data[31],
    ];
    assert(r@ =~= data@.subrange(16, 32));
    r
}

impl Version {
    /// Parse the version header at the start of `data`.
    pub fn parse(data: &[u8]) -> (r: Result<Version, Error>)
        ensures
            match version_at(data@) {
                Ok(v) => r matches Ok(version) && version@ == v,
                Err(e) => r == Err::<Version, Error>(e),
            },
            r matches Ok(version) ==> version.roots@.len() == 6,
    {
        if !has_magic(data) {
            return Err(Error::GlassMagic);
        }
        let format_version: u16 = data[14] as u16 * 256 + data[15] as u16;
        if format_version != GLASS_FORMAT_VERSION {
            return Err(Error::GlassFormat);
        }
        if data.len() < 32 {
            return Err(Error::Malformed);
        }
        let uuid: [u8; 16] = uuid_of(data);
        let mut pos: usize = 32;
        let rev: u64 = match unpack_uint(data, &mut pos) {
            Some(v) => v,
            None => return Err(Error::BadRevision),
        };
        let ghost roots_start = pos as int;
        let mut roots: Vec<RootInfo> = Vec::with_capacity(6);
        let mut i: usize = 0;
        while i < 6
            invariant
                i <= 6,
                roots@.len() == i,
                roots_at(data@, roots_start, i as nat) == Some((roots@, pos as int)),
                roots_at(data@, roots_start, 6) is None ==> version_at(data@) == Err::<
                    VersionSpec,
                    Error,
                >(Error::BadRootInfo),
            decreases 6 - i,
        {
            match RootInfo::parse(data, &mut pos) {
                Some(info) => {
                    roots.push(info);
                },
                None => {
                    proof {
                        lemma_roots_missing(data@, roots_start, (i + 1) as nat, 6);
                    }
                    return Err(Error::BadRootInfo);
                },
            }
            i += 1;
        }
        let ghost stats_start = pos as int;
        proof {
            reveal_with_fuel(varint::u64s_at, 9);
            reveal_with_fuel(varint::u64s_read, 9);
        }
        let doccount: u64 = match unpack_uint(data, &mut pos) {
            Some(v) => v,
            None => return Err(Error::BadStats(Stat::DocCount)),
        };
        let last_docid: u64 = match unpack_uint(data, &mut pos) {
            Some(v) => v,
            None => return Err(Error::BadStats(Stat::LastDocId)),
        };
        let doclen_lbound: u64 = match unpack_uint(data, &mut pos) {
            Some(v) => v,
            None => return Err(Error::BadStats(Stat::DocLenLower)),
        };
        let wdf_ubound: u64 = match unpack_uint(data, &mut pos) {
            Some(v) => v,
            None => return Err(Error::BadStats(Stat::WdfUpper)),
        };
        let doclen_ubound: u64 = match unpack_uint(data, &mut pos) {
            Some(v) => v,
            None => return Err(Error::BadStats(Stat::DocLenUpper)),
        };
        let oldest_changeset: u64 = match unpack_uint(data, &mut pos) {
            Some(v) => v,
            None => return Err(Error::BadStats(Stat::OldestChangeset)),
        };
        let total_doclen: u64 = match unpack_uint(data, &mut pos) {
            Some(v) => v,
            None => return Err(Error::BadStats(Stat::TotalDocLen)),
        };
        let spelling_wordfreq_ubound: u64 = match unpack_uint(data, &mut pos) {
            Some(v) => v,
            None => return Err(Error::BadStats(Stat::SpellingUpper)),
        };
        let last_docid: u64 = match last_docid.checked_add(doccount) {
            Some(v) => v,
            None => return Err(Error::Malformed),
        };
        let doclen_ubound: u64 = match doclen_ubound.checked_add(wdf_ubound) {
            Some(v) => v,
            None => return Err(Error::Malformed),
        };
        Ok(
            Version {
                format_version,
                uuid,
                rev,
                roots,
                doccount,
                last_docid,
                doclen_lbound,
                wdf_ubound,
                doclen_ubound,
                oldest_changeset,
                total_doclen,
                spelling_wordfreq_ubound,
            },
        )
    }
}

proof fn lemma_roots_missing(buf: Seq<u8>, pos: int, i: nat, n: nat)
    requires
        i <= n,
        roots_at(buf, pos, i) is None,
    ensures
        roots_at(buf, pos, n) is None,
    decreases n,
{
    if i < n {
        lemma_roots_missing(buf, pos, i, (n - 1) as nat);
    }
}

} // verus!
