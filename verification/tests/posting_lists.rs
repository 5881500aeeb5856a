//! Posting lists.

use zxr::error::Error;
use zxr::glass::postlist::{
    continuation_did, decode_chunk_body, decode_first_chunk, escape_nuls,
};
use zxr::glass::{pack_sortable, RootInfo, Table};

const SIZE: usize = 512;

fn pack_uint(mut n: u64) -> Vec<u8> {
    let mut out: Vec<u8> = Vec::new();
    while n >= 128 {
        out.push((n % 128) as u8 + 128);
        n /= 128;
    }
    out.push(n as u8);
    out
}

fn body(last: bool, list: &[(u64, u32)]) -> Vec<u8> {
    let mut out: Vec<u8> = vec![if last { b'1' } else { b'0' }];
    out.extend(pack_uint(list[list.len() - 1].0 - list[0].0));
    out.extend(pack_uint(list[0].1 as u64));
    for k in 1..list.len() {
        out.extend(pack_uint(list[k].0 - list[k - 1].0 - 1));
        out.extend(pack_uint(list[k].1 as u64));
    }
    out
}

fn first(termfreq: u64, collfreq: u64, last: bool, list: &[(u64, u32)]) -> Vec<u8> {
    let mut out: Vec<u8> = pack_uint(termfreq);
    out.extend(pack_uint(collfreq));
    out.extend(pack_uint(list[0].0 - 1));
    out.extend(body(last, list));
    out
}

fn chunk_key(term: &[u8], did: u64) -> Vec<u8> {
    let mut out: Vec<u8> = if term.is_empty() { vec![0x00, 0xe0] } else { escape_nuls(term) };
    if !term.is_empty() {
        out.push(0);
    }
    out.extend(pack_sortable(did));
    out
}

fn item(key: &[u8], tag: &[u8]) -> Vec<u8> {
    let mut out: Vec<u8> = ((key.len() + tag.len()) as u16).to_be_bytes().to_vec();
    out[0] |= 0x60;
    out.push(key.len() as u8);
    out.extend(key);
    out.extend(tag);
    out
}

fn table_file(items: &[Vec<u8>]) -> Vec<u8> {
    let mut out: Vec<u8> = vec![0u8; SIZE];
    out[9..11].copy_from_slice(&((11 + 2 * items.len()) as u16).to_be_bytes());
    let mut end: usize = SIZE;
    for (i, item) in items.iter().enumerate() {
        end -= item.len();
        out[end..end + item.len()].copy_from_slice(item);
        out[11 + 2 * i..13 + 2 * i].copy_from_slice(&(end as u16).to_be_bytes());
    }
    out
}

fn info() -> RootInfo {
    RootInfo {
        root: 0,
        level: 0,
        num_entries: 0,
        root_is_fake: false,
        sequential: false,
        blocksize: SIZE as u32,
        compress_min: 0,
        fl_serialised_len: 0,
    }
}

#[test]
fn nul_bytes_are_escaped() {
    assert_eq!(escape_nuls(b"term"), b"term".to_vec());
    assert_eq!(escape_nuls(b""), b"".to_vec());
    assert_eq!(escape_nuls(b"a\0b\0"), b"a\0\xffb\0\xff".to_vec());
}

#[test]
fn escaping_keeps_terms_apart_and_in_order() {
    let terms: [&[u8]; 7] = [b"", b"\0", b"\0\0", b"\x01", b"a", b"a\0", b"a\x01"];
    for k in 1..terms.len() {
        assert!(terms[k - 1] < terms[k]);
        assert!(escape_nuls(terms[k - 1]) < escape_nuls(terms[k]));
    }
}

#[test]
fn a_first_chunk_gives_back_what_was_packed() {
    let list: [(u64, u32); 4] = [(1, 5), (2, 1), (300, 200), (70000, 3)];
    let (pl, last) = decode_first_chunk(&first(4, 209, true, &list)).unwrap();
    assert_eq!((pl.termfreq, pl.collfreq, last), (4, 209, true));
    assert_eq!(pl.postings, list.to_vec());
    let (pl, last) = decode_first_chunk(&first(4, 209, false, &list)).unwrap();
    assert_eq!(pl.postings, list.to_vec());
    assert!(!last);
}

#[test]
fn a_chunk_body_is_appended() {
    let list: [(u64, u32); 3] = [(10, 5), (12, 1), (40, 2)];
    let mut tag: Vec<u8> = vec![0xee, 0xee];
    tag.extend(body(false, &list));
    let mut pos: usize = 2;
    let mut postings: Vec<(u64, u32)> = vec![(1, 1)];
    assert!(!decode_chunk_body(&tag, &mut pos, 10, &mut postings).unwrap());
    assert_eq!(pos, tag.len());
    assert_eq!(postings, vec![(1, 1), (10, 5), (12, 1), (40, 2)]);
}

#[test]
fn only_an_ascii_one_marks_the_last_chunk() {
    for (flag, last) in [(b'1', true), (b'0', false), (1u8, false), (0u8, false)] {
        let mut pos: usize = 0;
        let mut postings: Vec<(u64, u32)> = Vec::new();
        let tag: [u8; 3] = [flag, 0, 7];
        assert_eq!(decode_chunk_body(&tag, &mut pos, 3, &mut postings).unwrap(), last);
        assert_eq!(postings, vec![(3, 7)]);
    }
}

#[test]
fn occurrence_counts_are_kept_modulo_two_to_the_32() {
    let mut tag: Vec<u8> = vec![b'1', 0];
    tag.extend(pack_uint(0x1_0000_0005));
    let mut pos: usize = 0;
    let mut postings: Vec<(u64, u32)> = Vec::new();
    assert!(decode_chunk_body(&tag, &mut pos, 3, &mut postings).unwrap());
    assert_eq!(postings, vec![(3, 5)]);
}

#[test]
fn truncated_chunks_are_refused() {
    let tag: Vec<u8> = body(true, &[(10, 5), (300, 200)]);
    for n in [0usize, 1, 3, 6, 7] {
        let mut pos: usize = 0;
        let mut postings: Vec<(u64, u32)> = Vec::new();
        let r = decode_chunk_body(&tag[..n], &mut pos, 10, &mut postings);
        assert!(matches!(r, Err(Error::PostlistTruncated)), "{n} bytes");
    }
    assert!(matches!(decode_first_chunk(&[]), Err(Error::PostlistTruncated)));
    assert!(matches!(decode_first_chunk(&[1]), Err(Error::PostlistTruncated)));
    assert!(matches!(decode_first_chunk(&[1, 2]), Err(Error::PostlistTruncated)));
    assert!(matches!(decode_first_chunk(&[1, 2, 3]), Err(Error::PostlistTruncated)));
}

#[test]
fn document_numbers_that_do_not_fit_are_malformed() {
    let mut tag: Vec<u8> = vec![1, 1];
    tag.extend(pack_uint(u64::MAX));
    tag.extend([b'1', 0, 1]);
    assert!(matches!(decode_first_chunk(&tag), Err(Error::Malformed)));
    for gap in [u64::MAX - 10, u64::MAX] {
        let mut tag: Vec<u8> = vec![b'1', 0, 1];
        tag.extend(pack_uint(gap));
        tag.push(1);
        let mut pos: usize = 0;
        let mut postings: Vec<(u64, u32)> = Vec::new();
        let r = decode_chunk_body(&tag, &mut pos, 10, &mut postings);
        assert!(matches!(r, Err(Error::Malformed)));
        assert_eq!(postings, vec![(10, 1)]);
    }
}

#[test]
fn chunk_keys_give_their_first_document() {
    assert_eq!(continuation_did(&chunk_key(b"water", 77777), b"water", true).unwrap(), Some(77777));
    assert_eq!(continuation_did(&chunk_key(b"", 5), &[0x00, 0xe0], false).unwrap(), Some(5));
    assert_eq!(continuation_did(b"water", b"water", true).unwrap(), None);
    assert_eq!(continuation_did(b"wate", b"water", true).unwrap(), None);
    assert_eq!(continuation_did(b"waters", b"water", true).unwrap(), None);
    assert_eq!(continuation_did(&chunk_key(b"fire", 5), b"water", true).unwrap(), None);
    assert!(matches!(continuation_did(b"water\0", b"water", true), Err(Error::PostlistTruncated)));
    assert!(matches!(
        continuation_did(&escape_nuls(b"water\0x"), b"water", true),
        Err(Error::PostlistTruncated)
    ));
}

#[test]
fn a_list_of_several_chunks_is_read_whole() {
    let a: [(u64, u32); 2] = [(1, 5), (9, 1)];
    let b: [(u64, u32); 3] = [(10, 2), (11, 3), (40000, 4)];
    let c: [(u64, u32); 1] = [(50000, 6)];
    let file: Vec<u8> = table_file(&[
        item(&[0x00, 0xe0], &first(2, 30, false, &[(1, 10), (2, 20)])),
        item(&chunk_key(b"", 3), &body(true, &[(3, 30)])),
        item(b"fire", &first(1, 1, true, &[(7, 1)])),
        item(b"water", &first(6, 21, false, &a)),
        item(&chunk_key(b"water", 10), &body(false, &b)),
        item(&chunk_key(b"water", 50000), &body(true, &c)),
        item(b"waters", &first(1, 1, true, &[(8, 1)])),
    ]);
    let t = Table::new(&file, 0, &info(), "postlist");
    let pl = t.read_postlist(b"water").unwrap().unwrap();
    assert_eq!((pl.termfreq, pl.collfreq), (6, 21));
    assert_eq!(pl.postings, vec![(1, 5), (9, 1), (10, 2), (11, 3), (40000, 4), (50000, 6)]);
    let pl = t.read_postlist(b"fire").unwrap().unwrap();
    assert_eq!(pl.postings, vec![(7, 1)]);
    let pl = t.read_postlist(b"").unwrap().unwrap();
    assert_eq!(pl.postings, vec![(1, 10), (2, 20), (3, 30)]);
    assert!(t.read_postlist(b"wat").unwrap().is_none());
    assert!(t.read_postlist(b"zebra").unwrap().is_none());
}

#[test]
fn a_list_ends_where_its_keys_end() {
    let a: [(u64, u32); 1] = [(1, 5)];
    let file: Vec<u8> = table_file(&[
        item(b"fire", &first(1, 5, false, &a)),
        item(b"water", &first(1, 5, false, &a)),
    ]);
    let t = Table::new(&file, 0, &info(), "postlist");
    assert_eq!(t.read_postlist(b"fire").unwrap().unwrap().postings, vec![(1, 5)]);
    assert_eq!(t.read_postlist(b"water").unwrap().unwrap().postings, vec![(1, 5)]);
}

#[test]
fn terms_with_nul_bytes_are_found() {
    let file: Vec<u8> = table_file(&[
        item(&escape_nuls(b"a"), &first(1, 5, true, &[(1, 5)])),
        item(&escape_nuls(b"a\0b"), &first(1, 6, true, &[(2, 6)])),
    ]);
    let t = Table::new(&file, 0, &info(), "postlist");
    assert_eq!(t.read_postlist(b"a\0b").unwrap().unwrap().postings, vec![(2, 6)]);
    assert_eq!(t.read_postlist(b"a").unwrap().unwrap().postings, vec![(1, 5)]);
}

#[test]
fn a_list_without_a_key_for_lengths_has_none() {
    let file: Vec<u8> = table_file(&[item(b"fire", &first(1, 5, true, &[(1, 5)]))]);
    let t = Table::new(&file, 0, &info(), "postlist");
    assert!(t.read_postlist(b"").unwrap().is_none());
}

#[test]
fn broken_further_chunks_are_refused() {
    let a: [(u64, u32); 1] = [(1, 5)];
    let file: Vec<u8> = table_file(&[
        item(b"fire", &first(1, 5, false, &a)),
        item(&chunk_key(b"fire", 5), b""),
    ]);
    let t = Table::new(&file, 0, &info(), "postlist");
    assert!(matches!(t.read_postlist(b"fire"), Err(Error::PostlistTruncated)));
    let file: Vec<u8> = table_file(&[
        item(b"fire", &first(1, 5, false, &a)),
        item(b"fire\0\x81", &body(true, &[(5, 5)])),
    ]);
    let t = Table::new(&file, 0, &info(), "postlist");
    assert!(matches!(t.read_postlist(b"fire"), Err(Error::PostlistTruncated)));
}

#[test]
fn documents_ascend_whatever_a_chunk_holds() {
    let tag: [u8; 12] = [b'x', 9, 1, 0, 7, 0x85, 0x01, 2, 0, 0, 3, 1];
    let mut pos: usize = 0;
    let mut postings: Vec<(u64, u32)> = Vec::new();
    assert!(!decode_chunk_body(&tag, &mut pos, 4, &mut postings).unwrap());
    assert_eq!(postings, vec![(4, 1), (5, 7), (139, 2), (140, 0), (144, 1)]);
}

#[test]
fn a_lengths_key_is_no_term_key() {
    assert!(escape_nuls(&[0x00, 0xe0]) != vec![0x00, 0xe0]);
    assert_eq!(continuation_did(&chunk_key(b"", 5), &escape_nuls(b"\0"), true).unwrap(), None);
}
