//! What can go wrong while reading an archive or its index.

use vstd::prelude::*;
use vstd::string::StringExecFns;

verus! {

/// The statistics at the end of the version header, in the order in which they stand.
#[derive(Debug, Clone, Copy, PartialEq, Eq, Structural)]
pub enum Stat {
    DocCount,
    LastDocId,
    DocLenLower,
    WdfUpper,
    DocLenUpper,
    OldestChangeset,
    TotalDocLen,
    SpellingUpper,
}

/// A failure to read an archive or its index.
#[derive(Debug, Clone, Copy)]
pub enum Error {
    /// The index does not start with the glass magic.
    GlassMagic,
    /// The index has another format version.
    GlassFormat,
    /// The revision is incomplete.
    BadRevision,
    /// A table's root information is incomplete.
    BadRootInfo,
    /// A statistic is incomplete.
    BadStats(Stat),
    /// A block lies outside the file.
    BlockOutOfRange { block: u64, table: &'static str },
    /// The table ends inside a tag.
    TagTruncated,
    /// A posting list ends inside an entry.
    PostlistTruncated,
    /// A compressed tag is not a deflate stream.
    DeflateCorrupt,
    /// A compressed tag ends inside its deflate stream.
    DeflateIncomplete,
    /// The file does not start with the ZIM magic.
    NotZim { magic: u32 },
    /// The directory entry holds no content of its own.
    NotContent { entry: u32, mime: u16 },
    /// The archive has no full-text index.
    NoFulltextIndex,
    /// An offset points outside the data that it is followed in, a directory cannot be
    /// searched, or a number that was read or computed is too great for its use.
    Malformed,
}

/// The class of a failure.
#[derive(Debug, Clone, Copy, PartialEq, Eq, Structural)]
pub enum Kind {
    InvalidData,
    InvalidInput,
    UnexpectedEof,
    NotFound,
    Malformed,
}

/// The digit `d` in base 16, lower case.
pub open spec fn digit_char(d: int) -> char {
    if d < 10 {
        (('0' as int) + d) as char
    } else {
        (('a' as int) + d - 10) as char
    }
}

/// `n` in decimal, without leading zeros.
pub open spec fn decimal(n: nat) -> Seq<char>
    decreases n,
{
    if n < 10 {
        seq![digit_char(n as int)]
    } else {
        decimal(n / 10).push(digit_char((n % 10) as int))
    }
}

/// The low `width` digits of `n` in base 16.
pub open spec fn hex(n: nat, width: nat) -> Seq<char>
    decreases width,
{
    if width == 0 {
        Seq::empty()
    } else {
        hex(n / 16, (width - 1) as nat).push(digit_char((n % 16) as int))
    }
}

fn digit(d: u8) -> (r: &'static str)
    requires
        d < 16,
    ensures
        r@ == seq![digit_char(d as int)],
{
    proof {
        reveal_strlit("0");
        reveal_strlit("1");
        reveal_strlit("2");
        reveal_strlit("3");
        reveal_strlit("4");
        reveal_strlit("5");
        reveal_strlit("6");
        reveal_strlit("7");
        reveal_strlit("8");
        reveal_strlit("9");
        reveal_strlit("a");
        reveal_strlit("b");
        reveal_strlit("c");
        reveal_strlit("d");
        reveal_strlit("e");
        reveal_strlit("f");
    }
    let r: &'static str = match d {
        0 => "0",
        1 => "1",
        2 => "2",
        3 => "3",
        4 => "4",
        5 => "5",
        6 => "6",
        7 => "7",
        8 => "8",
        9 => "9",
        10 => "a",
        11 => "b",
        12 => "c",
        13 => "d",
        14 => "e",
        _ => "f",
    };
    assert(r@ =~= seq![digit_char(d as int)]);
    r
}

fn push_decimal(out: &mut String, n: u64)
    ensures
        final(out)@ == old(out)@ + decimal(n as nat),
    decreases n,
{
    let ghost before = out@;
    if n >= 10 {
        push_decimal(out, n / 10);
    }
    out.append(digit((n % 10) as u8));
    assert(out@ =~= before + decimal(n as nat));
}

fn push_hex(out: &mut String, n: u32, width: u32)
    ensures
        final(out)@ == old(out)@ + hex(n as nat, width as nat),
    decreases width,
{
    let ghost before = out@;
    if width > 0 {
        push_hex(out, n / 16, width - 1);
        out.append(digit((n % 16) as u8));
    }
    assert(out@ =~= before + hex(n as nat, width as nat));
}

impl Stat {
    /// The name that messages give to the statistic.
    pub open spec fn spec_name(self) -> Seq<char> {
        match self {
            Stat::DocCount => "stats doccount"@,
            Stat::LastDocId => "stats last_docid"@,
            Stat::DocLenLower => "stats dl_lbound"@,
            Stat::WdfUpper => "stats wdf_ubound"@,
            Stat::DocLenUpper => "stats dl_ubound"@,
            Stat::OldestChangeset => "stats oldest"@,
            Stat::TotalDocLen => "stats total_dl"@,
            Stat::SpellingUpper => "stats spell_ub"@,
        }
    }

    /// The name that messages give to the statistic.
    pub fn name(&self) -> (r: &'static str)
        ensures
            r@ == self.spec_name(),
    {
        match self {
            Stat::DocCount => "stats doccount",
            Stat::LastDocId => "stats last_docid",
            Stat::DocLenLower => "stats dl_lbound",
            Stat::WdfUpper => "stats wdf_ubound",
            Stat::DocLenUpper => "stats dl_ubound",
            Stat::OldestChangeset => "stats oldest",
            Stat::TotalDocLen => "stats total_dl",
            Stat::SpellingUpper => "stats spell_ub",
        }
    }
}

impl Error {
    /// The class of the failure.
    pub open spec fn spec_kind(self) -> Kind {
        match self {
            Error::BlockOutOfRange { .. } | Error::DeflateIncomplete => Kind::UnexpectedEof,
            Error::DeflateCorrupt => Kind::InvalidInput,
            Error::NoFulltextIndex => Kind::NotFound,
            Error::Malformed => Kind::Malformed,
            _ => Kind::InvalidData,
        }
    }

    /// The class of the failure.
    pub fn kind(&self) -> (r: Kind)
        ensures
            r == self.spec_kind(),
    {
        match self {
            Error::BlockOutOfRange { .. } | Error::DeflateIncomplete => Kind::UnexpectedEof,
            Error::DeflateCorrupt => Kind::InvalidInput,
            Error::NoFulltextIndex => Kind::NotFound,
            Error::Malformed => Kind::Malformed,
            _ => Kind::InvalidData,
        }
    }

    /// The failure in words.
    pub open spec fn spec_message(self) -> Seq<char> {
        match self {
            Error::GlassMagic => "glass magic mismatch"@,
            Error::GlassFormat => "unsupported glass format version"@,
            Error::BadRevision => "bad rev"@,
            Error::BadRootInfo => "bad root info"@,
            Error::BadStats(stat) => stat.spec_name(),
            Error::BlockOutOfRange { block, table } => "block "@ + decimal(block as nat)
                + " out of range for table "@ + table@,
            Error::TagTruncated => "unexpected end of table reading tag continuation"@,
            Error::PostlistTruncated => "unexpected end of postlist data"@,
            Error::DeflateCorrupt => "corrupt deflate stream"@,
            Error::DeflateIncomplete => "incomplete deflate stream"@,
            Error::NotZim { magic } => "not a ZIM file (magic=0x"@ + hex(magic as nat, 8) + ")"@,
            Error::NotContent { entry, mime } => "entry "@ + decimal(entry as nat)
                + " is not a content entry (mime=0x"@ + hex(mime as nat, 4) + ")"@,
            Error::NoFulltextIndex => "no X/fulltext/xapian entry"@,
            Error::Malformed => "malformed data"@,
        }
    }

    /// The failure in words.
    pub fn message(&self) -> (r: String)
        ensures
            r@ == self.spec_message(),
    {
        let mut out: String = String::new();
        match self {
            Error::GlassMagic => out.append("glass magic mismatch"),
            Error::GlassFormat => out.append("unsupported glass format version"),
            Error::BadRevision => out.append("bad rev"),
            Error::BadRootInfo => out.append("bad root info"),
            Error::BadStats(stat) => out.append(stat.name()),
            Error::BlockOutOfRange { block, table } => {
                out.append("block ");
                push_decimal(&mut out, *block);
                out.append(" out of range for table ");
                out.append(table);
            },
            Error::TagTruncated => out.append("unexpected end of table reading tag continuation"),
            Error::PostlistTruncated => out.append("unexpected end of postlist data"),
            Error::DeflateCorrupt => out.append("corrupt deflate stream"),
            Error::DeflateIncomplete => out.append("incomplete deflate stream"),
            Error::NotZim { magic } => {
                out.append("not a ZIM file (magic=0x");
                push_hex(&mut out, *magic, 8);
                out.append(")");
            },
            Error::NotContent { entry, mime } => {
                out.append("entry ");
                push_decimal(&mut out, *entry as u64);
                out.append(" is not a content entry (mime=0x");
                push_hex(&mut out, *mime as u32, 4);
                out.append(")");
            },
            Error::NoFulltextIndex => out.append("no X/fulltext/xapian entry"),
            Error::Malformed => out.append("malformed data"),
        }
        assert(out@ =~= self.spec_message());
        out
    }
}

/// The value of a digit, in base 16 and below.
pub open spec fn digit_value(c: char) -> int {
    if '0' <= c <= '9' {
        c as int - '0' as int
    } else if 'a' <= c <= 'f' {
        c as int - 'a' as int + 10
    } else {
        -1
    }
}

/// The number that digits spell in a base, most significant first.
pub open spec fn digits_value(s: Seq<char>, base: int) -> int
    decreases s.len(),
{
    if s.len() == 0 {
        0
    } else {
        digits_value(s.drop_last(), base) * base + digit_value(s.last())
    }
}

/// The digits that messages show of a number spell that number in base ten, without
/// leading zeros.
pub proof fn law_decimal(n: nat)
    ensures
        digits_value(decimal(n), 10) == n,
        decimal(n).len() > 0,
        decimal(n).len() > 1 ==> decimal(n)[0] != '0',
        forall|i: int| 0 <= i < decimal(n).len() ==> '0' <= #[trigger] decimal(n)[i] <= '9',
    decreases n,
{
    if n < 10 {
        let one = decimal(n);
        assert(one.drop_last() =~= Seq::<char>::empty());
        assert(digits_value(one.drop_last(), 10) == 0);
        assert(one.last() == digit_char(n as int));
    } else {
        law_decimal(n / 10);
        let all = decimal(n);
        assert(all.drop_last() =~= decimal(n / 10));
        assert(all.last() == digit_char((n % 10) as int));
        assert(all[0] == decimal(n / 10)[0]);
        if n / 10 < 10 {
            assert(decimal(n / 10)[0] == digit_char((n / 10) as int));
        } else {
            law_decimal(n / 10 / 10);
            assert(decimal(n / 10).len() == decimal(n / 10 / 10).len() + 1);
        }
    }
}

/// The digits that messages show of a number in base 16 are as many as are asked for, and
/// spell that number where it has no more.
pub proof fn law_hex(n: nat, width: nat)
    ensures
        hex(n, width).len() == width,
        digits_value(hex(n, width), 16) >= 0,
        n < vstd::arithmetic::power::pow(16, width) ==> digits_value(hex(n, width), 16) == n,
        forall|i: int|
            0 <= i < width ==> '0' <= #[trigger] hex(n, width)[i] <= '9' || 'a' <= hex(n, width)[i]
                <= 'f',
    decreases width,
{
    reveal(vstd::arithmetic::power::pow);
    if width > 0 {
        law_hex(n / 16, (width - 1) as nat);
        let all = hex(n, width);
        assert(all.drop_last() =~= hex(n / 16, (width - 1) as nat));
        assert(all.last() == digit_char((n % 16) as int));
        let p = vstd::arithmetic::power::pow(16, (width - 1) as nat);
        assert(vstd::arithmetic::power::pow(16, width) == 16 * p);
        assert forall|i: int| 0 <= i < width implies '0' <= #[trigger] hex(n, width)[i] <= '9'
            || 'a' <= hex(n, width)[i] <= 'f' by {
            if i < width - 1 {
                assert(all[i] == hex(n / 16, (width - 1) as nat)[i]);
            }
        }
    }
}

/// A message names what failed, with the numbers and names that belong to the failure.
pub proof fn law_messages(n: u64, table: &'static str, magic: u32, entry: u32, mime: u16, s: Stat)
    ensures
        (Error::BlockOutOfRange { block: n, table }).spec_message() == "block "@ + decimal(
            n as nat,
        ) + " out of range for table "@ + table@,
        (Error::NotZim { magic }).spec_message() == "not a ZIM file (magic=0x"@ + hex(
            magic as nat,
            8,
        ) + ")"@,
        (Error::NotContent { entry, mime }).spec_message() == "entry "@ + decimal(entry as nat)
            + " is not a content entry (mime=0x"@ + hex(mime as nat, 4) + ")"@,
        Error::BadStats(s).spec_message() == s.spec_name(),
        Error::GlassMagic.spec_message() == "glass magic mismatch"@,
        Error::GlassFormat.spec_message() == "unsupported glass format version"@,
        Error::BadRevision.spec_message() == "bad rev"@,
        Error::BadRootInfo.spec_message() == "bad root info"@,
        Error::TagTruncated.spec_message() == "unexpected end of table reading tag continuation"@,
        Error::PostlistTruncated.spec_message() == "unexpected end of postlist data"@,
        Error::DeflateCorrupt.spec_message() == "corrupt deflate stream"@,
        Error::DeflateIncomplete.spec_message() == "incomplete deflate stream"@,
        Error::NoFulltextIndex.spec_message() == "no X/fulltext/xapian entry"@,
        Error::Malformed.spec_message() == "malformed data"@,
{
}

/// Each failure is of one class, whatever it carries.
pub proof fn law_kinds(e: Error)
    ensures
        e.spec_kind() == Kind::UnexpectedEof <==> e is BlockOutOfRange || e is DeflateIncomplete,
        e.spec_kind() == Kind::InvalidInput <==> e is DeflateCorrupt,
        e.spec_kind() == Kind::NotFound <==> e is NoFulltextIndex,
        e.spec_kind() == Kind::Malformed <==> e is Malformed,
        e.spec_kind() == Kind::InvalidData <==> e is GlassMagic || e is GlassFormat || e
            is BadRevision || e is BadRootInfo || e is BadStats || e is TagTruncated || e
            is PostlistTruncated || e is NotZim || e is NotContent,
{
}

/// Each statistic has its own name.
pub proof fn law_stat_names()
    ensures
        Stat::DocCount.spec_name() == "stats doccount"@,
        Stat::LastDocId.spec_name() == "stats last_docid"@,
        Stat::DocLenLower.spec_name() == "stats dl_lbound"@,
        Stat::WdfUpper.spec_name() == "stats wdf_ubound"@,
        Stat::DocLenUpper.spec_name() == "stats dl_ubound"@,
        Stat::OldestChangeset.spec_name() == "stats oldest"@,
        Stat::TotalDocLen.spec_name() == "stats total_dl"@,
        Stat::SpellingUpper.spec_name() == "stats spell_ub"@,
{
}

} // verus!
