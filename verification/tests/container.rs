//! The ZIM container.

use zxr::error::Error;
use zxr::zim::{read_cstr, BlobLocation, Zim, MIME_DELETED, MIME_LINKTARGET, MIME_REDIRECT};

/// A directory entry: MIME type number, namespace, cluster, blob, URL.
type Entry = (u16, u8, u32, u32, &'static [u8]);

fn dirent(e: &Entry) -> Vec<u8> {
    let mut out: Vec<u8> = e.0.to_le_bytes().to_vec();
    out.push(0);
    out.push(e.1);
    out.extend([0u8; 4]);
    out.extend(e.2.to_le_bytes());
    if e.0 != MIME_REDIRECT {
        out.extend(e.3.to_le_bytes());
    }
    out.extend(e.4);
    out.push(0);
    out
}

/// An archive with the given MIME list, entries and clusters.
fn archive(mimes: &[u8], entries: &[Entry], clusters: &[Vec<u8>]) -> Vec<u8> {
    let mut out: Vec<u8> = vec![0u8; 80];
    out[0..4].copy_from_slice(&0x044D_495Au32.to_le_bytes());
    out[4..6].copy_from_slice(&6u16.to_le_bytes());
    out[6..8].copy_from_slice(&1u16.to_le_bytes());
    out[24..28].copy_from_slice(&(entries.len() as u32).to_le_bytes());
    out[28..32].copy_from_slice(&(clusters.len() as u32).to_le_bytes());
    out[40..48].copy_from_slice(&1234u64.to_le_bytes());
    out[56..64].copy_from_slice(&80u64.to_le_bytes());
    out[64..68].copy_from_slice(&77u32.to_le_bytes());
    out[72..80].copy_from_slice(&5678u64.to_le_bytes());
    out.extend(mimes);
    let mut pointers: Vec<u64> = Vec::new();
    for e in entries {
        pointers.push(out.len() as u64);
        out.extend(dirent(e));
    }
    let at: u64 = out.len() as u64;
    out[32..40].copy_from_slice(&at.to_le_bytes());
    for p in pointers {
        out.extend(p.to_le_bytes());
    }
    let mut pointers: Vec<u64> = Vec::new();
    for c in clusters {
        pointers.push(out.len() as u64);
        out.extend(c);
    }
    let at: u64 = out.len() as u64;
    out[48..56].copy_from_slice(&at.to_le_bytes());
    for p in pointers {
        out.extend(p.to_le_bytes());
    }
    out
}

fn cluster32(info: u8, offsets: &[u32], data: &[u8]) -> Vec<u8> {
    let mut out: Vec<u8> = vec![info];
    for o in offsets {
        out.extend(o.to_le_bytes());
    }
    out.extend(data);
    out
}

fn cluster64(info: u8, offsets: &[u64], data: &[u8]) -> Vec<u8> {
    let mut out: Vec<u8> = vec![info];
    for o in offsets {
        out.extend(o.to_le_bytes());
    }
    out.extend(data);
    out
}

fn sample() -> Vec<u8> {
    archive(
        b"text/html\0image/png\0\0",
        &[
            (0, b'C', 0, 0, b"Apple"),
            (MIME_REDIRECT, b'C', 9, 0, b"Banana"),
            (0, b'C', 0, 1, b"Cherry"),
            (MIME_DELETED, b'M', 0, 0, b"Gone"),
            (MIME_LINKTARGET, b'M', 0, 0, b"Link"),
            (1, b'X', 1, 1, b"fulltext/xapian"),
            (1, b'X', 2, 0, b"title/xapian"),
        ],
        &[
            cluster32(1, &[12, 15, 20], b"abcdefgh"),
            cluster64(0x10, &[24, 26, 31], b"xyhello"),
            cluster32(5, &[], b"compressed"),
        ],
    )
}

#[test]
fn header_and_mime_types_are_read() {
    let data: Vec<u8> = sample();
    let z = Zim::open(&data).unwrap();
    let h = z.header;
    assert_eq!((h.major, h.minor, h.entry_count, h.cluster_count), (6, 1, 7, 3));
    assert_eq!((h.title_ptr_pos, h.mime_list_pos, h.main_page, h.checksum_pos), (1234, 80, 77, 5678));
    assert_eq!(z.mime_types, vec!["text/html".to_string(), "image/png".to_string()]);
    assert_eq!(z.raw(), &data[..]);
}

#[test]
fn files_with_another_magic_are_refused() {
    let mut data: Vec<u8> = sample();
    data[0] = b'x';
    match Zim::open(&data) {
        Err(e) => {
            assert!(matches!(e, Error::NotZim { magic: 0x044D_4978 }));
            assert_eq!(e.message(), "not a ZIM file (magic=0x044d4978)");
        }
        Ok(_) => panic!("opened"),
    }
    assert!(matches!(Zim::open(b"none"), Err(Error::NotZim { .. })));
}

#[test]
fn short_files_are_malformed() {
    let data: Vec<u8> = sample();
    assert!(matches!(Zim::open(&data[..3]), Err(Error::Malformed)));
    assert!(matches!(Zim::open(&data[..79]), Err(Error::Malformed)));
}

#[test]
fn a_mime_list_ends_at_an_empty_or_unreadable_string() {
    let data: Vec<u8> = archive(b"\0more\0", &[], &[]);
    assert_eq!(Zim::open(&data).unwrap().mime_types.len(), 0);
    let data: Vec<u8> = archive(b"a\0\xff\xfe\0b\0\0", &[], &[]);
    assert_eq!(Zim::open(&data).unwrap().mime_types, vec!["a".to_string()]);
    let mut data: Vec<u8> = archive(b"", &[], &[]);
    assert_eq!(Zim::open(&data).unwrap().mime_types.len(), 0);
    data[56..64].copy_from_slice(&81u64.to_le_bytes());
    assert!(matches!(Zim::open(&data), Err(Error::Malformed)));
    data[56..64].copy_from_slice(&u64::MAX.to_le_bytes());
    assert!(matches!(Zim::open(&data), Err(Error::Malformed)));
    let mut data: Vec<u8> = archive(b"unterminated", &[], &[]);
    data.truncate(92);
    assert!(matches!(Zim::open(&data), Err(Error::Malformed)));
}

#[test]
fn strings_end_at_a_nul_byte() {
    assert_eq!(read_cstr(b"abc\0def", 0), ("abc", 4));
    assert_eq!(read_cstr(b"abc\0def", 4), ("def", 8));
    assert_eq!(read_cstr(b"abc\0def", 3), ("", 4));
    assert_eq!(read_cstr(b"abc", 3), ("", 4));
    assert_eq!(read_cstr("h\u{e9}llo\0".as_bytes(), 0), ("h\u{e9}llo", 7));
    assert_eq!(read_cstr(b"\xc3\x28\0", 0), ("", 3));
}

#[test]
fn entries_are_found_by_namespace_and_url() {
    let data: Vec<u8> = sample();
    let z = Zim::open(&data).unwrap();
    assert_eq!(z.find_entry(b'C', "Apple"), Some(0));
    assert_eq!(z.find_entry(b'C', "Banana"), Some(1));
    assert_eq!(z.find_entry(b'C', "Cherry"), Some(2));
    assert_eq!(z.find_entry(b'X', "fulltext/xapian"), Some(5));
    assert_eq!(z.find_entry(b'X', "title/xapian"), Some(6));
    assert_eq!(z.find_entry(b'C', "Appl"), None);
    assert_eq!(z.find_entry(b'C', "Zebra"), None);
    assert_eq!(z.find_entry(b'A', "Apple"), None);
    assert_eq!(z.find_entry(b'Z', ""), None);
    assert_eq!(z.try_find_entry(b'M', "Gone").unwrap(), Some(3));
    let data: Vec<u8> = archive(b"\0", &[], &[]);
    assert_eq!(Zim::open(&data).unwrap().find_entry(b'C', "Apple"), None);
}

#[test]
fn entry_keys_are_read() {
    let data: Vec<u8> = sample();
    let z = Zim::open(&data).unwrap();
    assert_eq!(z.entry_key(0), Some((b'C', "Apple")));
    assert_eq!(z.entry_key(1), Some((b'C', "Banana")));
    assert_eq!(z.entry_key(5), Some((b'X', "fulltext/xapian")));
    assert_eq!(z.entry_key(u32::MAX), None);
}

#[test]
fn searching_unreadable_entries_is_malformed() {
    let mut data: Vec<u8> = sample();
    let z = Zim::open(&data).unwrap();
    let pos: usize = z.header.url_ptr_pos as usize;
    data[pos + 3 * 8..pos + 4 * 8].copy_from_slice(&u64::MAX.to_le_bytes());
    let z = Zim::open(&data).unwrap();
    assert!(matches!(z.try_find_entry(b'C', "Apple"), Err(Error::Malformed)));
    assert!(matches!(z.find_fulltext_index(), Err(Error::Malformed)));
}

#[test]
fn only_content_entries_have_a_blob() {
    let data: Vec<u8> = sample();
    let z = Zim::open(&data).unwrap();
    assert_eq!(z.entry_cluster_blob(0).unwrap(), (0, 0));
    assert_eq!(z.entry_cluster_blob(2).unwrap(), (0, 1));
    assert_eq!(z.entry_cluster_blob(5).unwrap(), (1, 1));
    for (i, number) in [(1u32, MIME_REDIRECT), (3, MIME_DELETED), (4, MIME_LINKTARGET)] {
        match z.entry_cluster_blob(i) {
            Err(e) => {
                assert!(matches!(e, Error::NotContent { entry, mime } if entry == i && mime == number));
                assert_eq!(
                    e.message(),
                    format!("entry {i} is not a content entry (mime={number:#06x})")
                );
            }
            Ok(_) => panic!("entry {i} has content"),
        }
    }
    assert!(matches!(z.entry_cluster_blob(u32::MAX), Err(Error::Malformed)));
}

#[test]
fn blobs_of_uncompressed_clusters_are_located() {
    let data: Vec<u8> = sample();
    let z = Zim::open(&data).unwrap();
    let a: BlobLocation = z.locate_blob(0, 0).unwrap();
    assert_eq!((a.cluster, a.blob, a.compression, a.extended), (0, 0, 1, false));
    assert_eq!(a.length, 3);
    let (base, bytes) = z.blob_bytes(&a).unwrap();
    assert_eq!(bytes, b"abc");
    assert_eq!(base as u64, a.file_offset.unwrap());
    let b: BlobLocation = z.locate_blob(0, 1).unwrap();
    assert_eq!(z.blob_bytes(&b).unwrap().1, b"defgh");
    assert_eq!(a.file_offset.unwrap() + a.length, b.file_offset.unwrap());
    let c: BlobLocation = z.locate_blob(1, 1).unwrap();
    assert_eq!((c.compression, c.extended, c.length), (0, true, 5));
    assert_eq!(z.blob_bytes(&c).unwrap().1, b"hello");
}

#[test]
fn blobs_of_compressed_clusters_have_no_offset() {
    let data: Vec<u8> = sample();
    let z = Zim::open(&data).unwrap();
    let loc: BlobLocation = z.locate_blob(2, 7).unwrap();
    assert_eq!((loc.cluster, loc.blob, loc.compression, loc.extended), (2, 7, 5, false));
    assert_eq!((loc.file_offset, loc.length), (None, 0));
    assert!(z.blob_bytes(&loc).is_none());
}

#[test]
fn blobs_outside_the_file_are_malformed() {
    let data: Vec<u8> = sample();
    let z = Zim::open(&data).unwrap();
    assert!(matches!(z.locate_blob(3, 0), Err(Error::Malformed)));
    assert!(matches!(z.locate_blob(u32::MAX, 0), Err(Error::Malformed)));
    assert!(matches!(z.locate_blob(0, 10_000), Err(Error::Malformed)));
    let data: Vec<u8> = archive(b"\0", &[], &[cluster32(0, &[9, 8], b"x")]);
    assert!(matches!(Zim::open(&data).unwrap().locate_blob(0, 0), Err(Error::Malformed)));
    let data: Vec<u8> = archive(b"\0", &[], &[cluster64(0x11, &[u64::MAX, u64::MAX], b"x")]);
    assert!(matches!(Zim::open(&data).unwrap().locate_blob(0, 0), Err(Error::Malformed)));
}

#[test]
fn blob_bytes_stop_at_the_end_of_the_file() {
    let data: Vec<u8> = sample();
    let z = Zim::open(&data).unwrap();
    let mut loc: BlobLocation = z.locate_blob(0, 0).unwrap();
    loc.length = u64::MAX;
    let (base, bytes) = z.blob_bytes(&loc).unwrap();
    assert_eq!(bytes, &data[base..]);
    loc.file_offset = Some(data.len() as u64 + 1);
    assert!(z.blob_bytes(&loc).is_none());
    loc.file_offset = Some(data.len() as u64);
    assert_eq!(z.blob_bytes(&loc).unwrap().1.len(), 0);
}

#[test]
fn the_fulltext_index_is_located() {
    let data: Vec<u8> = sample();
    let z = Zim::open(&data).unwrap();
    let (i, loc) = z.find_fulltext_index().unwrap();
    assert_eq!((i, loc.cluster, loc.blob, loc.length), (5, 1, 1, 5));
    assert_eq!(z.blob_bytes(&loc).unwrap().1, b"hello");
}

#[test]
fn an_archive_without_an_index_says_so() {
    let data: Vec<u8> = archive(b"\0", &[(0, b'C', 0, 0, b"Apple")], &[]);
    let e: Error = Zim::open(&data).unwrap().find_fulltext_index().unwrap_err();
    assert!(matches!(e, Error::NoFulltextIndex));
    assert_eq!(e.message(), "no X/fulltext/xapian entry");
    let data: Vec<u8> = archive(b"\0", &[(MIME_REDIRECT, b'X', 0, 0, b"fulltext/xapian")], &[]);
    let e: Error = Zim::open(&data).unwrap().find_fulltext_index().unwrap_err();
    assert!(matches!(e, Error::NotContent { entry: 0, mime: MIME_REDIRECT }));
}
