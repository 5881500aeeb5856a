//! Packed integers, strings and sort-preserving keys.

use zxr::bytes::{compare_bytes, rd_u16, rd_u32, rd_u64, read_be16, read_be32};
use zxr::glass::{pack_sortable, unpack_sortable, unpack_string, unpack_uint};

fn pack_uint(mut n: u64) -> Vec<u8> {
    let mut out: Vec<u8> = Vec::new();
    while n >= 128 {
        out.push((n % 128) as u8 + 128);
        n /= 128;
    }
    out.push(n as u8);
    out
}

#[test]
fn fixed_width_integers_are_read_in_both_byte_orders() {
    let b: [u8; 9] = [0xaa, 0x01, 0x02, 0x03, 0x04, 0x05, 0x06, 0x07, 0x08];
    assert_eq!(rd_u16(&b, 1), 0x0201);
    assert_eq!(rd_u32(&b, 1), 0x0403_0201);
    assert_eq!(rd_u64(&b, 1), 0x0807_0605_0403_0201);
    assert_eq!(read_be16(&b, 1), 0x0102);
    assert_eq!(read_be32(&b, 1), 0x0102_0304);
}

#[test]
fn byte_strings_compare_by_byte_then_by_length() {
    assert_eq!(compare_bytes(b"abc", b"abd"), -1);
    assert_eq!(compare_bytes(b"b", b"abc"), 1);
    assert_eq!(compare_bytes(b"ab", b"abc"), -1);
    assert_eq!(compare_bytes(b"abc", b"ab"), 1);
    assert_eq!(compare_bytes(b"", b""), 0);
    assert_eq!(compare_bytes(&[0xff], &[0x7f]), 1);
}

#[test]
fn uint_takes_seven_bits_per_byte_lowest_first() {
    let mut pos: usize = 0;
    assert_eq!(unpack_uint(&[0x05], &mut pos), Some(5));
    assert_eq!(pos, 1);
    pos = 1;
    assert_eq!(unpack_uint(&[0x00, 0xac, 0x02, 0x7f], &mut pos), Some(300));
    assert_eq!(pos, 3);
    assert_eq!(unpack_uint(&[0x00, 0xac, 0x02, 0x7f], &mut pos), Some(127));
    assert_eq!(pos, 4);
}

#[test]
fn uint_accepts_padding_with_zero_groups() {
    let mut pos: usize = 0;
    let mut buf: Vec<u8> = vec![0x83];
    buf.extend(vec![0x80; 20]);
    buf.push(0x00);
    assert_eq!(unpack_uint(&buf, &mut pos), Some(3));
    assert_eq!(pos, 22);
}

#[test]
fn uint_reads_the_greatest_64_bit_number() {
    let mut pos: usize = 0;
    let mut buf: Vec<u8> = vec![0xff; 9];
    buf.push(0x01);
    assert_eq!(unpack_uint(&buf, &mut pos), Some(u64::MAX));
    assert_eq!(pos, 10);
}

#[test]
fn uint_refuses_numbers_beyond_64_bits() {
    let mut pos: usize = 0;
    let mut buf: Vec<u8> = vec![0xff; 9];
    buf.push(0x02);
    assert_eq!(unpack_uint(&buf, &mut pos), None);
    assert_eq!(pos, 10);
    let mut pos: usize = 0;
    let mut buf: Vec<u8> = vec![0x80; 10];
    buf.push(0x01);
    assert_eq!(unpack_uint(&buf, &mut pos), None);
    assert_eq!(pos, 11);
}

#[test]
fn uint_refuses_an_incomplete_number() {
    let mut pos: usize = 0;
    assert_eq!(unpack_uint(&[0x80, 0xff], &mut pos), None);
    assert_eq!(pos, 2);
    assert_eq!(unpack_uint(&[0x80, 0xff], &mut pos), None);
    assert_eq!(pos, 2);
    let mut pos: usize = 7;
    assert_eq!(unpack_uint(&[], &mut pos), None);
    assert_eq!(pos, 7);
}

#[test]
fn uint_round_trips() {
    let numbers: [u64; 10] = [
        0,
        1,
        127,
        128,
        16383,
        16384,
        0xffff_ffff,
        0x7fff_ffff_ffff_ffff,
        0x8000_0000_0000_0000,
        u64::MAX,
    ];
    for n in numbers {
        let mut buf: Vec<u8> = vec![0xee];
        buf.extend(pack_uint(n));
        buf.push(0x11);
        let mut pos: usize = 1;
        assert_eq!(unpack_uint(&buf, &mut pos), Some(n));
        assert_eq!(pos, buf.len() - 1);
    }
}

#[test]
fn strings_follow_their_length() {
    let buf: [u8; 6] = [3, b'a', b'b', b'c', 0, 9];
    let mut pos: usize = 0;
    assert_eq!(unpack_string(&buf, &mut pos), Some(&b"abc"[..]));
    assert_eq!(pos, 4);
    assert_eq!(unpack_string(&buf, &mut pos), Some(&b""[..]));
    assert_eq!(pos, 5);
    assert_eq!(unpack_string(&buf, &mut pos), None);
    assert_eq!(pos, 6);
    assert_eq!(unpack_string(&buf, &mut pos), None);
    assert_eq!(pos, 6);
}

#[test]
fn strings_longer_than_memory_are_refused() {
    let mut buf: Vec<u8> = pack_uint(u64::MAX);
    buf.extend(b"abc");
    let mut pos: usize = 0;
    assert_eq!(unpack_string(&buf, &mut pos), None);
    assert_eq!(pos, 10);
}

#[test]
fn sortable_encodings_are_exact() {
    assert_eq!(pack_sortable(0), vec![0x00, 0x00]);
    assert_eq!(pack_sortable(0x1234), vec![0x12, 0x34]);
    assert_eq!(pack_sortable(0x7fff), vec![0x7f, 0xff]);
    assert_eq!(pack_sortable(0x8000), vec![0x80, 0x80, 0x00]);
    assert_eq!(pack_sortable(0x3f_ffff), vec![0xbf, 0xff, 0xff]);
    assert_eq!(pack_sortable(0x40_0000), vec![0xc0, 0x40, 0x00, 0x00]);
    assert_eq!(pack_sortable(0x1fff_ffff), vec![0xdf, 0xff, 0xff, 0xff]);
    assert_eq!(pack_sortable(0x2000_0000), vec![0xe0, 0x20, 0x00, 0x00, 0x00]);
    assert_eq!(
        pack_sortable(u64::MAX),
        vec![0xfe, 0xff, 0xff, 0xff, 0xff, 0xff, 0xff, 0xff, 0xff]
    );
}

#[test]
fn sortable_round_trips_and_keeps_order() {
    let numbers: [u64; 18] = [
        0,
        1,
        0xff,
        0x100,
        0x7fff,
        0x8000,
        0x3f_ffff,
        0x40_0000,
        0x1fff_ffff,
        0x2000_0000,
        0xf_ffff_ffff,
        0x10_0000_0000,
        0x7ff_ffff_ffff,
        0x800_0000_0000,
        0x3_ffff_ffff_ffff,
        0x4_0000_0000_0000,
        0x200_0000_0000_0000,
        u64::MAX,
    ];
    for n in numbers {
        let mut buf: Vec<u8> = vec![0xee];
        buf.extend(pack_sortable(n));
        buf.push(0x11);
        let mut pos: usize = 1;
        assert_eq!(unpack_sortable(&buf, &mut pos), Some(n));
        assert_eq!(pos, buf.len() - 1);
    }
    for k in 1..numbers.len() {
        assert!(pack_sortable(numbers[k - 1]) < pack_sortable(numbers[k]));
    }
}

#[test]
fn sortable_refuses_bad_leads_and_short_buffers() {
    let mut pos: usize = 0;
    assert_eq!(unpack_sortable(&[0xff, 1, 2, 3, 4, 5, 6, 7, 8, 9], &mut pos), None);
    assert_eq!(pos, 1);
    let mut pos: usize = 0;
    assert_eq!(unpack_sortable(&[0x12], &mut pos), None);
    assert_eq!(pos, 1);
    let mut pos: usize = 0;
    assert_eq!(unpack_sortable(&[0x81, 0x02], &mut pos), None);
    assert_eq!(pos, 2);
    let mut pos: usize = 3;
    assert_eq!(unpack_sortable(&[0x12, 0x34], &mut pos), None);
    assert_eq!(pos, 3);
}
