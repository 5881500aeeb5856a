//! The version header of an index.

use zxr::error::{Error, Stat};
use zxr::glass::version::RootInfo;
use zxr::glass::{Version, DOCDATA, POSITION, POSTLIST, SPELLING, SYNONYM, TABLE_NAMES, TERMLIST};

fn pack_uint(mut n: u64) -> Vec<u8> {
    let mut out: Vec<u8> = Vec::new();
    while n >= 128 {
        out.push((n % 128) as u8 + 128);
        n /= 128;
    }
    out.push(n as u8);
    out
}

fn head() -> Vec<u8> {
    let mut out: Vec<u8> = b"\x0f\x0dXapian Glass".to_vec();
    out.extend(1134u16.to_be_bytes());
    out.extend([7u8; 16]);
    out
}

fn root(fields: [u64; 5], freelist: &[u8]) -> Vec<u8> {
    let mut out: Vec<u8> = Vec::new();
    for f in fields {
        out.extend(pack_uint(f));
    }
    out.extend(pack_uint(freelist.len() as u64));
    out.extend(freelist);
    out
}

fn with_roots() -> Vec<u8> {
    let mut out: Vec<u8> = head();
    out.extend(pack_uint(42));
    out.extend(root([5, 9, 1000, 4, 4], b"fl"));
    out.extend(root([6, 6, 10, 1, 12], b""));
    for _ in 0..4 {
        out.extend(root([0, 1, 0, 4, 0], b""));
    }
    out
}

fn with_stats(stats: &[u64]) -> Vec<u8> {
    let mut out: Vec<u8> = with_roots();
    for s in stats {
        out.extend(pack_uint(*s));
    }
    out
}

#[test]
fn header_is_parsed() {
    let v = Version::parse(&with_stats(&[100, 20, 3, 40, 500, 6, 70000, 8])).unwrap();
    assert_eq!(v.format_version, 1134);
    assert_eq!(v.uuid, [7u8; 16]);
    assert_eq!(v.rev, 42);
    assert_eq!(v.roots.len(), 6);
    assert_eq!(v.doccount, 100);
    assert_eq!(v.last_docid, 120);
    assert_eq!(v.doclen_lbound, 3);
    assert_eq!(v.wdf_ubound, 40);
    assert_eq!(v.doclen_ubound, 540);
    assert_eq!(v.oldest_changeset, 6);
    assert_eq!(v.total_doclen, 70000);
    assert_eq!(v.spelling_wordfreq_ubound, 8);
    let r = &v.roots[POSTLIST];
    assert_eq!(r.root, 5);
    assert_eq!(r.level, 2);
    assert!(!r.sequential);
    assert!(r.root_is_fake);
    assert_eq!(r.num_entries, 1000);
    assert_eq!(r.blocksize, 8192);
    assert_eq!(r.compress_min, 8);
    assert_eq!(r.fl_serialised_len, 2);
    let r = &v.roots[DOCDATA];
    assert_eq!(r.level, 1);
    assert!(r.sequential);
    assert!(!r.root_is_fake);
    assert_eq!(r.blocksize, 2048);
    assert_eq!(r.compress_min, 12);
    assert_eq!(r.fl_serialised_len, 0);
}

#[test]
fn table_indices_name_their_tables() {
    assert_eq!(TABLE_NAMES[POSTLIST], "postlist");
    assert_eq!(TABLE_NAMES[DOCDATA], "docdata");
    assert_eq!(TABLE_NAMES[TERMLIST], "termlist");
    assert_eq!(TABLE_NAMES[POSITION], "position");
    assert_eq!(TABLE_NAMES[SPELLING], "spelling");
    assert_eq!(TABLE_NAMES[SYNONYM], "synonym");
}

#[test]
fn bytes_behind_the_header_are_ignored() {
    let mut data: Vec<u8> = with_stats(&[1, 2, 3, 4, 5, 6, 7, 8]);
    data.extend([0xff; 50]);
    let v = Version::parse(&data).unwrap();
    assert_eq!(v.spelling_wordfreq_ubound, 8);
}

#[test]
fn wrong_magic_is_refused() {
    assert!(matches!(Version::parse(b""), Err(Error::GlassMagic)));
    assert!(matches!(Version::parse(&head()[..15]), Err(Error::GlassMagic)));
    let mut data: Vec<u8> = with_stats(&[1, 2, 3, 4, 5, 6, 7, 8]);
    data[13] = b'z';
    assert!(matches!(Version::parse(&data), Err(Error::GlassMagic)));
}

#[test]
fn other_format_is_refused() {
    let mut data: Vec<u8> = with_stats(&[1, 2, 3, 4, 5, 6, 7, 8]);
    data[15] += 1;
    assert!(matches!(Version::parse(&data), Err(Error::GlassFormat)));
}

#[test]
fn header_without_uuid_is_malformed() {
    assert!(matches!(Version::parse(&head()[..31]), Err(Error::Malformed)));
}

#[test]
fn missing_revision_is_refused() {
    assert!(matches!(Version::parse(&head()), Err(Error::BadRevision)));
}

#[test]
fn incomplete_root_is_refused() {
    let data: Vec<u8> = with_roots();
    assert!(matches!(Version::parse(&data[..data.len() - 1]), Err(Error::BadRootInfo)));
    assert!(matches!(Version::parse(&data[..33]), Err(Error::BadRootInfo)));
}

#[test]
fn each_missing_statistic_is_named() {
    let stats: [u64; 8] = [1, 2, 3, 4, 5, 6, 7, 8];
    let names: [Stat; 8] = [
        Stat::DocCount,
        Stat::LastDocId,
        Stat::DocLenLower,
        Stat::WdfUpper,
        Stat::DocLenUpper,
        Stat::OldestChangeset,
        Stat::TotalDocLen,
        Stat::SpellingUpper,
    ];
    for k in 0..8 {
        match Version::parse(&with_stats(&stats[..k])) {
            Err(Error::BadStats(stat)) => assert_eq!(stat, names[k]),
            _ => panic!("statistic {k} was not missed"),
        }
    }
}

#[test]
fn statistics_that_do_not_fit_are_malformed() {
    let data: Vec<u8> = with_stats(&[2, u64::MAX - 1, 3, 4, 5, 6, 7, 8]);
    assert!(matches!(Version::parse(&data), Err(Error::Malformed)));
    let data: Vec<u8> = with_stats(&[2, 3, 3, 4, u64::MAX - 3, 6, 7, 8]);
    assert!(matches!(Version::parse(&data), Err(Error::Malformed)));
}

#[test]
fn root_info_is_read_on_its_own() {
    let mut buf: Vec<u8> = vec![0xee];
    buf.extend(root([1, 0, 2, 3, 5], b"xyz"));
    let mut pos: usize = 1;
    let r = RootInfo::parse(&buf, &mut pos).unwrap();
    assert_eq!(pos, buf.len());
    assert_eq!((r.root, r.level, r.num_entries, r.blocksize), (1, 0, 2, 6144));
    assert_eq!((r.compress_min, r.fl_serialised_len), (5, 3));
    let mut pos: usize = 1;
    assert!(RootInfo::parse(&buf[..buf.len() - 1], &mut pos).is_none());
}
