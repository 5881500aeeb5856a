//! Blocks, tables, tags and key dumps.

use flate2::write::DeflateEncoder;
use flate2::Compression;
use std::io::Write;
use zxr::error::Error;
use zxr::glass::block::{
    bitem_block_given_by, bitem_key, find_in_branch, find_in_leaf, leaf_item,
};
use zxr::glass::inflate::{decompress_deflate, finish_inflate};
use zxr::glass::{Block, RootInfo, Table, DIR_START, LEVEL_FREELIST};

const SIZE: usize = 256;

/// A leaf item: flags 0x80 compressed, 0x40 last chunk, 0x20 first chunk.
fn leaf(key: &[u8], flags: u8, component: u16, chunk: &[u8]) -> Vec<u8> {
    let first: bool = flags & 0x20 != 0;
    let len: usize = 3 + key.len() + if first { 0 } else { 2 } + chunk.len();
    let mut out: Vec<u8> = ((len - 3) as u16).to_be_bytes().to_vec();
    out[0] |= flags;
    out.push(key.len() as u8);
    out.extend(key);
    if !first {
        out.extend(component.to_be_bytes());
    }
    out.extend(chunk);
    out
}

fn whole(key: &[u8], tag: &[u8]) -> Vec<u8> {
    leaf(key, 0x60, 1, tag)
}

fn branch(child: u32, key: &[u8], component: u16) -> Vec<u8> {
    let mut out: Vec<u8> = child.to_be_bytes().to_vec();
    out.push(key.len() as u8);
    out.extend(key);
    out.extend(component.to_be_bytes());
    out
}

fn block(level: u8, items: &[Vec<u8>]) -> Vec<u8> {
    let mut out: Vec<u8> = vec![0u8; SIZE];
    out[0..4].copy_from_slice(&9u32.to_be_bytes());
    out[4] = level;
    out[5..7].copy_from_slice(&70u16.to_be_bytes());
    out[7..9].copy_from_slice(&80u16.to_be_bytes());
    out[9..11].copy_from_slice(&((11 + 2 * items.len()) as u16).to_be_bytes());
    let mut end: usize = SIZE;
    for (i, item) in items.iter().enumerate() {
        end -= item.len();
        out[end..end + item.len()].copy_from_slice(item);
        out[11 + 2 * i..13 + 2 * i].copy_from_slice(&(end as u16).to_be_bytes());
    }
    out
}

fn info(root: u64, level: u32) -> RootInfo {
    RootInfo {
        root,
        level,
        num_entries: 3,
        root_is_fake: false,
        sequential: true,
        blocksize: SIZE as u32,
        compress_min: 8,
        fl_serialised_len: 0,
    }
}

fn deflated(data: &[u8]) -> Vec<u8> {
    let mut e = DeflateEncoder::new(Vec::new(), Compression::default());
    e.write_all(data).unwrap();
    e.finish().unwrap()
}

/// A table of two levels behind a prefix of seven bytes: block 1 is the root, blocks 2, 3
/// and 4 are leaves. The tag under "d" spans two leaves.
fn two_levels() -> Vec<u8> {
    let mut file: Vec<u8> = vec![0xee; 7];
    file.extend(vec![0u8; SIZE]);
    file.extend(block(1, &[branch(2, b"", 0), branch(3, b"d", 2), branch(4, b"k", 1)]));
    file.extend(block(0, &[whole(b"b", b"two"), whole(b"bb", b""), leaf(b"d", 0x20, 1, b"fo")]));
    file.extend(block(0, &[leaf(b"d", 0x00, 2, b"u"), leaf(b"d", 0x40, 3, b"r"), whole(b"e", b"five")]));
    file.extend(block(0, &[whole(b"m", b"thirteen"), whole(b"z", b"last")]));
    file
}

#[test]
fn block_fields_are_big_endian() {
    let data: Vec<u8> = block(3, &[whole(b"a", b"x"), whole(b"b", b"y")]);
    let b = Block { data: &data };
    assert_eq!(b.revision(), 9);
    assert_eq!(b.level(), 3);
    assert_eq!(b.max_free(), 70);
    assert_eq!(b.total_free(), 80);
    assert_eq!(b.dir_end(), 15);
    assert_eq!(b.dir_count(), 2);
    assert!(!b.is_freelist());
    let data: Vec<u8> = block(LEVEL_FREELIST, &[]);
    assert!(Block { data: &data }.is_freelist());
    assert_eq!(DIR_START, 11);
}

#[test]
fn leaf_items_are_parsed() {
    let data: Vec<u8> = block(0, &[leaf(b"key", 0xe0, 1, b"tag"), leaf(b"key", 0x00, 7, b"more")]);
    let b = Block { data: &data };
    let item = leaf_item(&b, 11).unwrap();
    assert_eq!((item.key, item.chunk, item.component_of), (&b"key"[..], &b"tag"[..], 1));
    assert!(item.compressed && item.first && item.last);
    let item = leaf_item(&b, 13).unwrap();
    assert_eq!((item.key, item.chunk, item.component_of), (&b"key"[..], &b"more"[..], 7));
    assert!(!item.compressed && !item.first && !item.last);
    assert!(leaf_item(&b, SIZE - 1).is_none());
    assert!(leaf_item(&b, usize::MAX).is_none());
}

#[test]
fn leaf_items_outside_their_block_are_refused() {
    let mut data: Vec<u8> = block(0, &[whole(b"key", b"tag")]);
    data[11] = 0xff;
    assert!(leaf_item(&Block { data: &data }, 11).is_none());
    let mut item: Vec<u8> = whole(b"key", b"tag");
    item[1] = 2;
    let data: Vec<u8> = block(0, &[item]);
    assert!(leaf_item(&Block { data: &data }, 11).is_none());
    let mut item: Vec<u8> = whole(b"key", b"tag");
    item[1] = 200;
    let data: Vec<u8> = block(0, &[item]);
    assert!(leaf_item(&Block { data: &data }, 11).is_none());
}

#[test]
fn branch_items_are_parsed() {
    let data: Vec<u8> = block(1, &[branch(0x0102_0304, b"sep", 5)]);
    let b = Block { data: &data };
    assert_eq!(bitem_block_given_by(&b, 11), Some(0x0102_0304));
    assert_eq!(bitem_key(&b, 11), Some((&b"sep"[..], 5)));
    assert_eq!(bitem_block_given_by(&b, SIZE), None);
    assert_eq!(bitem_key(&b, SIZE), None);
}

#[test]
fn chops_end_on_the_last_slot_at_or_before_the_key() {
    let data: Vec<u8> = block(0, &[whole(b"b", b""), whole(b"d", b""), whole(b"f", b"")]);
    let b = Block { data: &data };
    assert_eq!(find_in_leaf(&b, b"a"), Some((9, false)));
    assert_eq!(find_in_leaf(&b, b"b"), Some((11, true)));
    assert_eq!(find_in_leaf(&b, b"c"), Some((11, false)));
    assert_eq!(find_in_leaf(&b, b"d"), Some((13, true)));
    assert_eq!(find_in_leaf(&b, b"f"), Some((15, true)));
    assert_eq!(find_in_leaf(&b, b"g"), Some((15, false)));
    let data: Vec<u8> = block(1, &[branch(1, b"", 0), branch(2, b"d", 1), branch(3, b"f", 1)]);
    let b = Block { data: &data };
    assert_eq!(find_in_branch(&b, b"a"), Some(11));
    assert_eq!(find_in_branch(&b, b"d"), Some(13));
    assert_eq!(find_in_branch(&b, b"e"), Some(13));
    assert_eq!(find_in_branch(&b, b"z"), Some(15));
}

#[test]
fn chops_compare_keys_before_chunk_numbers() {
    let data: Vec<u8> = block(
        0,
        &[whole(b"a", b""), leaf(b"a", 0, 2, b""), leaf(b"a", 0, 3, b""), whole(b"ab", b"")],
    );
    let b = Block { data: &data };
    assert_eq!(find_in_leaf(&b, b"a"), Some((11, true)));
    assert_eq!(find_in_leaf(&b, b"aa"), Some((15, false)));
    assert_eq!(find_in_leaf(&b, b"ab"), Some((17, true)));
    let data: Vec<u8> = block(1, &[branch(1, b"", 0), branch(2, b"a", 2), branch(3, b"b", 0)]);
    let b = Block { data: &data };
    assert_eq!(find_in_branch(&b, b"a"), Some(11));
    assert_eq!(find_in_branch(&b, b"aa"), Some(13));
    assert_eq!(find_in_branch(&b, b"b"), Some(15));
}

#[test]
fn a_chop_over_broken_slots_gives_up() {
    let mut data: Vec<u8> = block(0, &[whole(b"b", b""), whole(b"d", b"")]);
    data[10] += 1;
    assert_eq!(find_in_leaf(&Block { data: &data }, b"z"), None);
    let mut data: Vec<u8> = block(0, &[whole(b"b", b""), whole(b"d", b"")]);
    data[11] = 0xff;
    data[13] = 0xff;
    assert_eq!(find_in_leaf(&Block { data: &data }, b"z"), None);
}

#[test]
fn table_takes_its_fields_from_the_root_info() {
    let file: Vec<u8> = two_levels();
    let t = Table::new(&file, 7, &info(1, 1), "docdata");
    assert_eq!((t.block_size, t.root, t.level, t.num_entries), (SIZE, 1, 1, 3));
    assert!(t.sequential && !t.root_is_fake);
    assert_eq!((t.compress_min, t.name), (8, "docdata"));
    assert_eq!(t.block(2).unwrap().data, &file[7 + 2 * SIZE..7 + 3 * SIZE]);
}

#[test]
fn blocks_outside_the_file_are_refused() {
    let file: Vec<u8> = two_levels();
    let t = Table::new(&file, 7, &info(1, 1), "docdata");
    for n in [5u64, 6, u64::MAX] {
        match t.block(n) {
            Err(e) => {
                assert!(matches!(e, Error::BlockOutOfRange { block, table: "docdata" } if block == n));
                assert_eq!(e.message(), format!("block {n} out of range for table docdata"));
            }
            Ok(_) => panic!("block {n} lies inside the file"),
        }
    }
    let t = Table::new(&file, 7, &info(9, 1), "docdata");
    assert!(matches!(t.get_exact_entry(b"b"), Err(Error::BlockOutOfRange { block: 9, .. })));
    assert!(matches!(t.dump_keys(1), Err(Error::BlockOutOfRange { block: 9, .. })));
}

#[test]
fn stored_keys_are_found_and_others_are_not() {
    let file: Vec<u8> = two_levels();
    let t = Table::new(&file, 7, &info(1, 1), "docdata");
    let stored: [(&[u8], &[u8]); 6] =
        [(b"b", b"two"), (b"bb", b""), (b"d", b"four"), (b"e", b"five"), (b"m", b"thirteen"), (b"z", b"last")];
    for (key, tag) in stored {
        assert_eq!(t.get_exact_entry(key).unwrap(), Some(tag.to_vec()));
    }
    for key in [&b"a"[..], b"ba", b"bbb", b"c", b"dd", b"f", b"k", b"l", b"mm", b"zz"] {
        assert_eq!(t.get_exact_entry(key).unwrap(), None);
    }
}

#[test]
fn keys_of_impossible_length_are_not_found() {
    let file: Vec<u8> = two_levels();
    let t = Table::new(&file, 7, &info(1, 1), "docdata");
    assert_eq!(t.get_exact_entry(b"").unwrap(), None);
    assert_eq!(t.get_exact_entry(&[b'b'; 256]).unwrap(), None);
    assert_eq!(t.get_exact_entry(&[b'b'; 255]).unwrap(), None);
}

#[test]
fn a_table_with_a_fake_root_is_empty() {
    let file: Vec<u8> = two_levels();
    let mut root: RootInfo = info(1, 1);
    root.root_is_fake = true;
    let t = Table::new(&file, 7, &root, "docdata");
    assert_eq!(t.get_exact_entry(b"b").unwrap(), None);
    assert_eq!(t.dump_keys(9).unwrap().len(), 0);
    assert_eq!(t.dump_keys_from(b"a", 9).unwrap().len(), 0);
}

#[test]
fn compressed_tags_are_decompressed() {
    let text: Vec<u8> = b"a tag that repeats, a tag that repeats, a tag that repeats".to_vec();
    let raw: Vec<u8> = deflated(&text);
    assert!(raw != text);
    let (front, back) = raw.split_at(4);
    let mut file: Vec<u8> = block(
        0,
        &[leaf(b"one", 0xe0, 1, &raw), leaf(b"two", 0xa0, 1, front), leaf(b"two", 0xc0, 2, back)],
    );
    let t = Table::new(&file, 0, &info(0, 0), "docdata");
    assert_eq!(t.get_exact_entry(b"one").unwrap(), Some(text.clone()));
    assert_eq!(t.get_exact_entry(b"two").unwrap(), Some(text.clone()));
    file = block(0, &[leaf(b"one", 0x60, 1, &raw)]);
    let t = Table::new(&file, 0, &info(0, 0), "docdata");
    assert_eq!(t.get_exact_entry(b"one").unwrap(), Some(raw));
}

#[test]
fn broken_compressed_tags_are_refused() {
    let raw: Vec<u8> = deflated(b"a tag that repeats, a tag that repeats");
    assert!(matches!(decompress_deflate(&raw[..raw.len() / 2]), Err(Error::DeflateIncomplete)));
    assert!(matches!(decompress_deflate(&[0xff; 8]), Err(Error::DeflateCorrupt)));
    assert_eq!(decompress_deflate(&raw).unwrap(), b"a tag that repeats, a tag that repeats");
    let file: Vec<u8> = block(0, &[leaf(b"one", 0xe0, 1, &[0xff; 8])]);
    let t = Table::new(&file, 0, &info(0, 0), "docdata");
    assert!(matches!(t.get_exact_entry(b"one"), Err(Error::DeflateCorrupt)));
}

#[test]
fn decompression_outcomes_are_told_apart() {
    assert_eq!(finish_inflate(Ok(vec![1, 2])).unwrap(), vec![1, 2]);
    assert!(matches!(finish_inflate(Err(true)), Err(Error::DeflateIncomplete)));
    assert!(matches!(finish_inflate(Err(false)), Err(Error::DeflateCorrupt)));
}

#[test]
fn a_tag_without_its_last_chunk_is_truncated() {
    let file: Vec<u8> = block(0, &[leaf(b"one", 0x20, 1, b"on"), leaf(b"one", 0x00, 2, b"e")]);
    let t = Table::new(&file, 0, &info(0, 0), "docdata");
    assert!(matches!(t.get_exact_entry(b"one"), Err(Error::TagTruncated)));
}

#[test]
fn malformed_blocks_are_reported() {
    let mut file: Vec<u8> = two_levels();
    file[7 + SIZE + 13] = 0xff;
    let t = Table::new(&file, 7, &info(1, 1), "docdata");
    assert!(matches!(t.get_exact_entry(b"e"), Err(Error::Malformed)));
    let tiny: Vec<u8> = vec![0u8; 8];
    let mut root: RootInfo = info(0, 0);
    root.blocksize = 8;
    let t = Table::new(&tiny, 0, &root, "docdata");
    assert!(matches!(t.get_exact_entry(b"e"), Err(Error::Malformed)));
    assert!(matches!(t.dump_keys(1), Err(Error::Malformed)));
}

#[test]
fn dumping_lists_every_chunk_in_order() {
    let file: Vec<u8> = two_levels();
    let t = Table::new(&file, 7, &info(1, 1), "docdata");
    let rows = t.dump_keys(100).unwrap();
    let expected: Vec<(Vec<u8>, usize, bool, bool, bool, i32)> = vec![
        (b"b".to_vec(), 3, false, true, true, 1),
        (b"bb".to_vec(), 0, false, true, true, 1),
        (b"d".to_vec(), 2, false, true, false, 1),
        (b"d".to_vec(), 1, false, false, false, 2),
        (b"d".to_vec(), 1, false, false, true, 3),
        (b"e".to_vec(), 4, false, true, true, 1),
        (b"m".to_vec(), 8, false, true, true, 1),
        (b"z".to_vec(), 4, false, true, true, 1),
    ];
    assert_eq!(rows, expected);
    assert_eq!(t.dump_keys(3).unwrap(), expected[..3].to_vec());
    assert_eq!(t.dump_keys(8).unwrap(), expected);
    assert_eq!(t.dump_keys(0).unwrap().len(), 0);
}

#[test]
fn dumping_from_a_key_lists_first_chunks() {
    let file: Vec<u8> = two_levels();
    let t = Table::new(&file, 7, &info(1, 1), "docdata");
    let keys = |start: &[u8], limit: usize| -> Vec<(Vec<u8>, usize)> {
        t.dump_keys_from(start, limit).unwrap()
    };
    assert_eq!(
        keys(b"", 100),
        vec![
            (b"b".to_vec(), 3),
            (b"bb".to_vec(), 0),
            (b"d".to_vec(), 2),
            (b"e".to_vec(), 4),
            (b"m".to_vec(), 8),
            (b"z".to_vec(), 4),
        ]
    );
    assert_eq!(keys(b"d", 2), vec![(b"d".to_vec(), 2), (b"e".to_vec(), 4)]);
    assert_eq!(keys(b"c", 1), vec![(b"d".to_vec(), 2)]);
    assert_eq!(keys(b"dd", 1), vec![(b"e".to_vec(), 4)]);
    assert_eq!(keys(b"k", 1), vec![(b"m".to_vec(), 8)]);
    assert_eq!(keys(b"z", 5), vec![(b"z".to_vec(), 4)]);
    assert_eq!(keys(b"zz", 5).len(), 0);
    assert_eq!(keys(b"b", 0).len(), 0);
}

#[test]
fn the_first_cursor_exists_where_the_leftmost_blocks_do() {
    let file: Vec<u8> = two_levels();
    assert!(Table::new(&file, 7, &info(1, 1), "docdata").cursor_to_first().is_ok());
    let mut broken: Vec<u8> = two_levels();
    broken.truncate(7 + 2 * SIZE);
    assert!(matches!(
        Table::new(&broken, 7, &info(1, 1), "docdata").cursor_to_first(),
        Err(Error::BlockOutOfRange { block: 2, .. })
    ));
}

#[test]
fn dumping_from_the_empty_key_lists_the_first_chunks_of_a_dump() {
    let file: Vec<u8> = two_levels();
    let t = Table::new(&file, 7, &info(1, 1), "docdata");
    let all = t.dump_keys(usize::MAX).unwrap();
    let firsts: Vec<(Vec<u8>, usize)> =
        all.into_iter().filter(|row| row.3).map(|row| (row.0, row.1)).collect();
    for n in 0..8 {
        let expected: Vec<(Vec<u8>, usize)> = firsts.iter().take(n).cloned().collect();
        assert_eq!(t.dump_keys_from(b"", n).unwrap(), expected);
    }
}

#[test]
fn a_table_with_an_empty_directory_has_nothing() {
    let file: Vec<u8> = block(0, &[]);
    let t = Table::new(&file, 0, &info(0, 0), "postlist");
    assert_eq!(t.get_exact_entry(b"key").unwrap(), None);
    assert!(t.read_postlist(b"key").unwrap().is_none());
    assert!(t.read_postlist(b"").unwrap().is_none());
}
