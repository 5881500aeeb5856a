//! Classes and texts of failures.

use zxr::error::{Error, Kind, Stat};

#[test]
fn every_failure_has_its_class_and_text() {
    let cases: Vec<(Error, Kind, &str)> = vec![
        (Error::GlassMagic, Kind::InvalidData, "glass magic mismatch"),
        (Error::GlassFormat, Kind::InvalidData, "unsupported glass format version"),
        (Error::BadRevision, Kind::InvalidData, "bad rev"),
        (Error::BadRootInfo, Kind::InvalidData, "bad root info"),
        (Error::BadStats(Stat::DocCount), Kind::InvalidData, "stats doccount"),
        (Error::BadStats(Stat::LastDocId), Kind::InvalidData, "stats last_docid"),
        (Error::BadStats(Stat::DocLenLower), Kind::InvalidData, "stats dl_lbound"),
        (Error::BadStats(Stat::WdfUpper), Kind::InvalidData, "stats wdf_ubound"),
        (Error::BadStats(Stat::DocLenUpper), Kind::InvalidData, "stats dl_ubound"),
        (Error::BadStats(Stat::OldestChangeset), Kind::InvalidData, "stats oldest"),
        (Error::BadStats(Stat::TotalDocLen), Kind::InvalidData, "stats total_dl"),
        (Error::BadStats(Stat::SpellingUpper), Kind::InvalidData, "stats spell_ub"),
        (
            Error::BlockOutOfRange { block: 1203, table: "postlist" },
            Kind::UnexpectedEof,
            "block 1203 out of range for table postlist",
        ),
        (
            Error::TagTruncated,
            Kind::InvalidData,
            "unexpected end of table reading tag continuation",
        ),
        (Error::PostlistTruncated, Kind::InvalidData, "unexpected end of postlist data"),
        (Error::DeflateCorrupt, Kind::InvalidInput, "corrupt deflate stream"),
        (Error::DeflateIncomplete, Kind::UnexpectedEof, "incomplete deflate stream"),
        (
            Error::NotZim { magic: 0xdead },
            Kind::InvalidData,
            "not a ZIM file (magic=0x0000dead)",
        ),
        (
            Error::NotContent { entry: 0, mime: 0xfffe },
            Kind::InvalidData,
            "entry 0 is not a content entry (mime=0xfffe)",
        ),
        (Error::NoFulltextIndex, Kind::NotFound, "no X/fulltext/xapian entry"),
        (Error::Malformed, Kind::Malformed, "malformed data"),
    ];
    for (e, kind, text) in cases {
        assert_eq!(e.kind(), kind);
        assert_eq!(e.message(), text);
    }
}

#[test]
fn great_block_numbers_are_written_out() {
    let e: Error = Error::BlockOutOfRange { block: u64::MAX, table: "docdata" };
    assert_eq!(e.message(), "block 18446744073709551615 out of range for table docdata");
}
