//! What an archive's bytes mean: header, MIME list, directory entries and clusters.

use crate::bytes;
use crate::error::Error;
use crate::zim;
use crate::zim::{BlobLocation, Header, ZimSpec};
use vstd::prelude::*;
use vstd::utf8;

verus! {

/// The number that the `n` bytes of `b` at offset `i` spell, least significant first.
pub open spec fn spelled(b: Seq<u8>, i: int, n: int) -> int {
    bytes::le_value(b.subrange(i, i + n)) as int
}

proof fn lemma_spelled(b: Seq<u8>, i: int)
    requires
        0 <= i,
    ensures
        i + 2 <= b.len() ==> bytes::le16(b, i) == spelled(b, i, 2) && 0 <= spelled(b, i, 2)
            < 0x1_0000,
        i + 4 <= b.len() ==> bytes::le32(b, i) == spelled(b, i, 4) && 0 <= spelled(b, i, 4)
            < 0x1_0000_0000,
        i + 8 <= b.len() ==> bytes::le64(b, i) == spelled(b, i, 8) && 0 <= spelled(b, i, 8)
            <= u64::MAX,
{
    bytes::law_little_endian(b, i);
}

/// Each field of the header stands at its own place, little-endian.
pub proof fn law_header(b: Seq<u8>)
    requires
        b.len() >= 80,
    ensures
        zim::header_at(b).major == spelled(b, 4, 2),
        zim::header_at(b).minor == spelled(b, 6, 2),
        zim::header_at(b).entry_count == spelled(b, 24, 4),
        zim::header_at(b).cluster_count == spelled(b, 28, 4),
        zim::header_at(b).url_ptr_pos == spelled(b, 32, 8),
        zim::header_at(b).title_ptr_pos == spelled(b, 40, 8),
        zim::header_at(b).cluster_ptr_pos == spelled(b, 48, 8),
        zim::header_at(b).mime_list_pos == spelled(b, 56, 8),
        zim::header_at(b).main_page == spelled(b, 64, 4),
        zim::header_at(b).checksum_pos == spelled(b, 72, 8),
{
    lemma_spelled(b, 4);
    lemma_spelled(b, 6);
    lemma_spelled(b, 24);
    lemma_spelled(b, 28);
    lemma_spelled(b, 32);
    lemma_spelled(b, 40);
    lemma_spelled(b, 48);
    lemma_spelled(b, 56);
    lemma_spelled(b, 64);
    lemma_spelled(b, 72);
}

/// Opening a file that starts with the ZIM magic gives its header and all the MIME types
/// of its list.
pub proof fn law_opened(b: Seq<u8>, types: Seq<Seq<u8>>)
    requires
        b.len() >= 80,
        spelled(b, 0, 4) == 0x044D_495A,
        forall|i: int|
            0 <= i < types.len() ==> utf8::valid_utf8(#[trigger] types[i]) && types[i].len() > 0,
        forall|i: int, k: int|
            0 <= i < types.len() && 0 <= k < types[i].len() ==> #[trigger] types[i][k] != 0,
        spelled(b, 56, 8) + zim::packed_strings(types).len() <= b.len(),
        b.subrange(
            spelled(b, 56, 8),
            spelled(b, 56, 8) + zim::packed_strings(types).len(),
        ) == zim::packed_strings(types),
    ensures
        zim::opened(b) == Ok::<(Header, Seq<Seq<char>>), Error>(
            (zim::header_at(b), types.map_values(|s: Seq<u8>| utf8::decode_utf8(s))),
        ),
{
    law_header(b);
    lemma_spelled(b, 0);
    let p = spelled(b, 56, 8);
    let list = zim::packed_strings(types);
    let before = b.take(p);
    let behind = b.skip(p + list.len());
    assert(b =~= before + b.subrange(p, p + list.len()) + behind);
    zim::law_strings_round_trip(before, types, behind);
}

/// A file that does not start with the ZIM magic is refused, and its magic reported.
pub proof fn law_not_zim(b: Seq<u8>)
    requires
        b.len() >= 4,
        spelled(b, 0, 4) != 0x044D_495A,
    ensures
        zim::opened(b) == Err::<(Header, Seq<Seq<char>>), Error>(
            Error::NotZim { magic: spelled(b, 0, 4) as u32 },
        ),
{
    lemma_spelled(b, 0);
}

/// Keys are ordered by namespace, then by the bytes of the URL.
pub proof fn law_key_order(a: (u8, Seq<u8>), b: (u8, Seq<u8>))
    ensures
        zim::key_lt(a, b) <==> a.0 < b.0 || (a.0 == b.0 && exists|k: int| #[trigger]
            bytes::decides(a.1, b.1, k)),
{
    bytes::law_lex_decided(a.1, b.1);
}

/// A NUL-terminated string `text` stands at offset `i`.
pub open spec fn string_at(b: Seq<u8>, i: int, text: Seq<u8>) -> bool {
    &&& 0 <= i
    &&& i + text.len() < b.len()
    &&& b.subrange(i, i + text.len()) == text
    &&& b[i + text.len()] == 0
    &&& forall|k: int| 0 <= k < text.len() ==> #[trigger] text[k] != 0
    &&& utf8::valid_utf8(text)
}

/// The string at offset `i` runs up to the first NUL byte, or to the end of the data, and
/// has no text where it is not UTF-8.
pub proof fn law_string_read(b: Seq<u8>, i: int, end: int)
    requires
        0 <= i <= end <= b.len(),
        forall|k: int| i <= k < end ==> #[trigger] b[k] != 0,
        end == b.len() || b[end] == 0,
    ensures
        zim::cstr_end(b, i) == end,
        zim::cstr_bytes(b, i) == (if utf8::valid_utf8(b.subrange(i, end)) {
            b.subrange(i, end)
        } else {
            Seq::empty()
        }),
    decreases end - i,
{
    if i < end {
        assert(b[i] != 0);
        law_string_read(b, i + 1, end);
    }
}

proof fn lemma_string(b: Seq<u8>, i: int, text: Seq<u8>)
    requires
        string_at(b, i, text),
    ensures
        zim::cstr_bytes(b, i) == text,
        zim::cstr_end(b, i) == i + text.len(),
{
    assert forall|k: int| 0 <= k < text.len() implies b[i + k] == #[trigger] text[k] by {
        assert(b.subrange(i, i + text.len())[k] == b[i + k]);
    }
    zim::lemma_cstr_at(b, i, text, 0);
}

/// The directory entry that pointer `i` of the URL pointer list leads to is at `off`.
pub open spec fn entry_is_at(z: ZimSpec, i: u32, off: int) -> bool {
    let ptr = z.header.url_ptr_pos + 8 * i;
    ptr + 8 <= z.data.len() && spelled(z.data, ptr, 8) == off
}

/// The key of a directory entry is its namespace and URL: the namespace is the byte at 3,
/// and the URL stands at 16, or at 12 in a redirect.
pub proof fn law_entry_key(z: ZimSpec, i: u32, off: int, url: Seq<u8>)
    requires
        entry_is_at(z, i, off),
        off + 4 <= z.data.len(),
        string_at(
            z.data,
            if spelled(z.data, off, 2) == 0xffff {
                off + 12
            } else {
                off + 16
            },
            url,
        ),
    ensures
        zim::key_at(z, i) == Some((z.data[off + 3], url)),
{
    let ptr = z.header.url_ptr_pos + 8 * i;
    lemma_spelled(z.data, ptr);
    lemma_spelled(z.data, off);
    assert(ptr == z.header.url_ptr_pos + i * 8);
    if spelled(z.data, off, 2) == 0xffff {
        lemma_string(z.data, off + 12, url);
    } else {
        lemma_string(z.data, off + 16, url);
    }
}

/// A content entry names its cluster and blob at 8 and 12. Redirects, link targets and
/// deleted entries name none.
pub proof fn law_entry_blob(z: ZimSpec, i: u32, off: int)
    requires
        entry_is_at(z, i, off),
        off + 16 <= z.data.len(),
    ensures
        zim::cluster_blob_of(z, i) == (if spelled(z.data, off, 2) >= 0xfffd {
            Err(Error::NotContent { entry: i, mime: spelled(z.data, off, 2) as u16 })
        } else {
            Ok((spelled(z.data, off + 8, 4) as u32, spelled(z.data, off + 12, 4) as u32))
        }),
{
    let ptr = z.header.url_ptr_pos + 8 * i;
    assert(ptr == z.header.url_ptr_pos + i * 8);
    lemma_spelled(z.data, ptr);
    lemma_spelled(z.data, off);
    lemma_spelled(z.data, off + 8);
    lemma_spelled(z.data, off + 12);
}

/// Pointer `c` of the cluster pointer list leads to offset `at`.
pub open spec fn cluster_is_at(z: ZimSpec, c: u32, at: int) -> bool {
    let ptr = z.header.cluster_ptr_pos + 8 * c;
    ptr + 8 <= z.data.len() && spelled(z.data, ptr, 8) == at && at < z.data.len()
}

/// The width of the offsets of a cluster, by its first byte.
pub open spec fn offset_width(info: u8) -> int {
    if (info / 16) % 2 == 1 {
        8
    } else {
        4
    }
}

/// Offset `k` of the table behind the first byte of a cluster at `at`.
pub open spec fn table_offset(b: Seq<u8>, at: int, k: int, width: int) -> int {
    spelled(b, at + 1 + k * width, width)
}

/// An uncompressed cluster with the given blobs is packed at offset `at`: a byte that says
/// so, the offset of each blob and of the end, all counted from behind that byte, and the
/// blobs one behind the other.
pub open spec fn cluster_packed(b: Seq<u8>, at: int, blobs: Seq<Seq<u8>>) -> bool {
    let width = offset_width(b[at]);
    let table = (blobs.len() + 1) * width;
    &&& 0 <= at < b.len()
    &&& b[at] % 16 <= 1
    &&& at + 1 + table + blobs.flatten().len() <= b.len()
    &&& forall|k: int|
        0 <= k <= blobs.len() ==> #[trigger] table_offset(b, at, k, width) == table
            + blobs.take(k).flatten().len()
    &&& b.subrange(at + 1 + table, at + 1 + table + blobs.flatten().len()) == blobs.flatten()
}

proof fn lemma_flatten_take(blobs: Seq<Seq<u8>>, k: int)
    requires
        0 <= k < blobs.len(),
    ensures
        ({
            let from = blobs.take(k).flatten().len();
            &&& blobs.take(k + 1).flatten().len() == from + blobs[k].len()
            &&& from + blobs[k].len() <= blobs.flatten().len()
            &&& blobs.flatten().subrange(from as int, (from + blobs[k].len()) as int) == blobs[k]
        }),
    decreases blobs.len(),
{
    let rest = blobs.drop_first();
    let head = blobs[0];
    if k == 0 {
        assert(blobs.take(0).flatten() =~= Seq::<u8>::empty());
        assert(blobs.take(1).drop_first() =~= Seq::<Seq<u8>>::empty());
        assert(blobs.take(1).drop_first().flatten() =~= Seq::<u8>::empty());
        assert(blobs.take(1).flatten() =~= head);
        assert(blobs.flatten().subrange(0, head.len() as int) =~= head);
    } else {
        lemma_flatten_take(rest, k - 1);
        assert(blobs.take(k).drop_first() =~= rest.take(k - 1));
        assert(blobs.take(k + 1).drop_first() =~= rest.take(k));
        let from = rest.take(k - 1).flatten().len() as int;
        assert(blobs.flatten().subrange(
            head.len() + from,
            head.len() + from + blobs[k].len(),
        ) =~= rest.flatten().subrange(from, from + blobs[k].len()));
    }
}

/// Where pointer `c` leads to a packed cluster, each of its blobs is located at exactly its
/// own bytes.
pub proof fn law_blob_located(z: ZimSpec, c: u32, at: int, blobs: Seq<Seq<u8>>, k: u32)
    requires
        z.data.len() <= u64::MAX,
        cluster_is_at(z, c, at),
        cluster_packed(z.data, at, blobs),
        k < blobs.len(),
    ensures
        zim::blob_at(z, c, k) matches Ok(loc) && {
            &&& loc.cluster == c
            &&& loc.blob == k
            &&& loc.compression == z.data[at] % 16
            &&& loc.extended == ((z.data[at] / 16) % 2 == 1)
            &&& loc.length == blobs[k as int].len()
            &&& loc.file_offset matches Some(off) && off + loc.length <= z.data.len()
                && z.data.subrange(off as int, off + loc.length) == blobs[k as int]
        },
{
    let b = z.data;
    let ptr = z.header.cluster_ptr_pos + 8 * c;
    assert(ptr == z.header.cluster_ptr_pos + c * 8);
    lemma_spelled(b, ptr);
    let width = offset_width(b[at]);
    let n = blobs.len() as int;
    let table = (n + 1) * width;
    let start = at + 1 + k * width;
    assert(k * width + 2 * width <= table) by (nonlinear_arith)
        requires
            0 <= k < n,
            width > 0,
            table == (n + 1) * width,
    ;
    assert((k + 1) * width == k * width + width) by (nonlinear_arith);
    assert(0 <= k * width) by (nonlinear_arith)
        requires
            0 <= k,
            width > 0,
    ;
    lemma_spelled(b, start);
    lemma_spelled(b, start + width);
    lemma_flatten_take(blobs, k as int);
    let from = blobs.take(k as int).flatten().len() as int;
    assert(table_offset(b, at, k as int, width) == table + from);
    assert(table_offset(b, at, k + 1, width) == table + blobs.take(k + 1).flatten().len());
    let off = at + 1 + table + from;
    let len = blobs[k as int].len() as int;
    let whole = b.subrange(at + 1 + table, at + 1 + table + blobs.flatten().len());
    assert(b.subrange(off, off + len) =~= whole.subrange(from, from + len));
    let loc = zim::blob_at(z, c, k);
    assert(table + from + len <= b.len());
    assert(loc matches Ok(l) && l.file_offset == Some(off as u64) && l.length == len);
}

/// A blob of a compressed cluster has a location without an offset.
pub proof fn law_blob_compressed(z: ZimSpec, c: u32, at: int, k: u32)
    requires
        cluster_is_at(z, c, at),
        z.data[at] % 16 > 1,
    ensures
        zim::blob_at(z, c, k) == Ok::<BlobLocation, Error>(
            BlobLocation {
                cluster: c,
                blob: k,
                compression: z.data[at] % 16,
                extended: (z.data[at] / 16) % 2 == 1,
                file_offset: None,
                length: 0,
            },
        ),
{
    let ptr = z.header.cluster_ptr_pos + 8 * c;
    assert(ptr == z.header.cluster_ptr_pos + c * 8);
    lemma_spelled(z.data, ptr);
}

/// The full-text index has namespace 'X' and URL "fulltext/xapian".
pub proof fn law_fulltext_key()
    ensures
        zim::fulltext_key() == (
            88u8,
            seq![102u8, 117, 108, 108, 116, 101, 120, 116, 47, 120, 97, 112, 105, 97, 110],
        ),
{
    reveal_strlit("fulltext/xapian");
    let text = "fulltext/xapian"@;
    assert(utf8::is_ascii_chars(text));
    utf8::is_ascii_chars_encode_utf8(text);
    assert(utf8::encode_utf8(text) =~= seq![
        102u8,
        117,
        108,
        108,
        116,
        101,
        120,
        116,
        47,
        120,
        97,
        112,
        105,
        97,
        110,
    ]);
}

/// An archive's full-text index is located at its own bytes: where the directory is sorted,
/// one content entry has the index's namespace and URL, and the cluster and blob that it
/// names are packed.
pub proof fn law_index_located(
    z: ZimSpec,
    i: u32,
    off: int,
    at: int,
    blobs: Seq<Seq<u8>>,
)
    requires
        z.data.len() <= u64::MAX,
        zim::entries_ok(z),
        i < z.header.entry_count,
        zim::key_at(z, i) == Some(
            (
                88u8,
                seq![102u8, 117, 108, 108, 116, 101, 120, 116, 47, 120, 97, 112, 105, 97, 110],
            ),
        ),
        forall|j: u32|
            j < z.header.entry_count && j != i ==> (#[trigger] zim::key_at(z, j)) != zim::key_at(
                z,
                i,
            ),
        entry_is_at(z, i, off),
        off + 16 <= z.data.len(),
        spelled(z.data, off, 2) < 0xfffd,
        cluster_is_at(z, spelled(z.data, off + 8, 4) as u32, at),
        cluster_packed(z.data, at, blobs),
        spelled(z.data, off + 12, 4) < blobs.len(),
    ensures
        zim::fulltext_of(z) matches Ok((entry, loc)) && {
            &&& entry == i
            &&& loc.cluster == spelled(z.data, off + 8, 4)
            &&& loc.blob == spelled(z.data, off + 12, 4)
            &&& loc.length == blobs[spelled(z.data, off + 12, 4)].len()
            &&& loc.file_offset matches Some(start) && start + loc.length <= z.data.len()
                && z.data.subrange(start as int, start + loc.length) == blobs[spelled(
                z.data,
                off + 12,
                4,
            )]
        },
{
    law_fulltext_key();
    law_entry_blob(z, i, off);
    lemma_spelled(z.data, off + 8);
    lemma_spelled(z.data, off + 12);
    let c = spelled(z.data, off + 8, 4) as u32;
    let k = spelled(z.data, off + 12, 4) as u32;
    law_blob_located(z, c, at, blobs, k);
    zim::law_fulltext_found(z, i);
}

/// A blob of an uncompressed cluster extends from its own offset to the next one, whatever
/// the offsets are, and is refused where they run backwards or beyond 64 bits, or do not
/// lie inside the file.
pub proof fn law_blob_span(z: ZimSpec, c: u32, at: int, k: u32)
    requires
        cluster_is_at(z, c, at),
        z.data[at] % 16 <= 1,
    ensures
        ({
            let width = offset_width(z.data[at]);
            let from = table_offset(z.data, at, k as int, width);
            let to = table_offset(z.data, at, k + 1, width);
            let inside = at + 1 + (k + 2) * width <= z.data.len();
            if inside && from <= to && at + 1 + from <= u64::MAX {
                zim::blob_at(z, c, k) == Ok::<BlobLocation, Error>(
                    BlobLocation {
                        cluster: c,
                        blob: k,
                        compression: z.data[at] % 16,
                        extended: width == 8,
                        file_offset: Some((at + 1 + from) as u64),
                        length: (to - from) as u64,
                    },
                )
            } else {
                zim::blob_at(z, c, k) == Err::<BlobLocation, Error>(Error::Malformed)
            }
        }),
{
    let b = z.data;
    let ptr = z.header.cluster_ptr_pos + 8 * c;
    assert(ptr == z.header.cluster_ptr_pos + c * 8);
    lemma_spelled(b, ptr);
    let width = offset_width(b[at]);
    let start = at + 1 + k * width;
    assert((k + 1) * width == k * width + width) by (nonlinear_arith);
    assert((k + 2) * width == k * width + 2 * width) by (nonlinear_arith);
    assert(0 <= k * width) by (nonlinear_arith)
        requires
            0 <= k,
            width > 0,
    ;
    lemma_spelled(b, start);
    lemma_spelled(b, start + width);
}

/// A cluster whose pointer does not lie inside the file, or leads out of it, is refused.
pub proof fn law_cluster_outside(z: ZimSpec, c: u32, k: u32)
    requires
        ({
            let ptr = z.header.cluster_ptr_pos + 8 * c;
            ptr + 8 > z.data.len() || spelled(z.data, ptr, 8) >= z.data.len()
        }),
    ensures
        zim::blob_at(z, c, k) == Err::<BlobLocation, Error>(Error::Malformed),
{
    let ptr = z.header.cluster_ptr_pos + 8 * c;
    assert(ptr == z.header.cluster_ptr_pos + c * 8);
    lemma_spelled(z.data, ptr);
}

/// A directory entry whose pointer does not lie inside the file has no key and no blob; one
/// that the file cuts short has none of what is cut off.
pub proof fn law_entry_outside(z: ZimSpec, i: u32, off: int)
    ensures
        z.header.url_ptr_pos + 8 * i + 8 > z.data.len() ==> {
            &&& zim::key_at(z, i) is None
            &&& zim::cluster_blob_of(z, i) == Err::<(u32, u32), Error>(Error::Malformed)
        },
        entry_is_at(z, i, off) && off + 4 > z.data.len() ==> zim::key_at(z, i) is None,
        entry_is_at(z, i, off) && off + 12 > z.data.len() ==> zim::key_at(z, i) is None,
        entry_is_at(z, i, off) && off + 16 > z.data.len() && spelled(z.data, off, 2) != 0xffff
            ==> zim::key_at(z, i) is None,
        entry_is_at(z, i, off) && off + 16 > z.data.len() && (off + 2 > z.data.len() || spelled(
            z.data,
            off,
            2,
        ) < 0xfffd) ==> zim::cluster_blob_of(z, i) == Err::<(u32, u32), Error>(Error::Malformed),
{
    let ptr = z.header.url_ptr_pos + 8 * i;
    assert(ptr == z.header.url_ptr_pos + i * 8);
    lemma_spelled(z.data, ptr);
    if entry_is_at(z, i, off) {
        lemma_spelled(z.data, off);
    }
}

proof fn lemma_found(z: ZimSpec, key: (u8, Seq<u8>), lo: int, hi: int)
    requires
        0 <= lo,
        hi < z.header.entry_count,
    ensures
        match zim::search(z, key, lo, hi) {
            Ok(Some(i)) => lo <= i <= hi && zim::key_at(z, i) == Some(key),
            Ok(None) => true,
            Err(e) => e == Error::Malformed && exists|i: u32|
                i < z.header.entry_count && (#[trigger] zim::key_at(z, i)) is None,
        },
    decreases hi - lo + 1,
{
    if lo <= hi {
        let mid = (lo + hi) / 2;
        match zim::key_at(z, mid as u32) {
            None => {},
            Some(k) => {
                if zim::key_lt(k, key) {
                    lemma_found(z, key, mid + 1, hi);
                } else if zim::key_lt(key, k) {
                    lemma_found(z, key, lo, mid - 1);
                } else {
                    zim::law_key_total(k, key);
                }
            },
        }
    }
}

/// Whatever the order of the directory, an entry that a search returns has the namespace
/// and URL that were asked for, and a search fails only over an unreadable entry.
pub proof fn law_found_as_asked(z: ZimSpec, namespace: u8, url: Seq<u8>)
    ensures
        match zim::entry_of(z, (namespace, url)) {
            Ok(Some(i)) => i < z.header.entry_count && zim::key_at(z, i) == Some((namespace, url)),
            Ok(None) => true,
            Err(e) => e == Error::Malformed && exists|i: u32|
                i < z.header.entry_count && (#[trigger] zim::key_at(z, i)) is None,
        },
{
    lemma_found(z, (namespace, url), 0, z.header.entry_count - 1);
}

/// The key of a directory entry whatever its URL looks like: the bytes up to the first NUL
/// byte or the end of the file, or none where they are not UTF-8.
pub proof fn law_entry_key_read(z: ZimSpec, i: u32, off: int, end: int)
    requires
        entry_is_at(z, i, off),
        off + 4 <= z.data.len(),
        ({
            let start: int = if spelled(z.data, off, 2) == 0xffff {
                off + 12
            } else {
                off + 16
            };
            &&& start <= end <= z.data.len()
            &&& forall|k: int| start <= k < end ==> #[trigger] z.data[k] != 0
            &&& end == z.data.len() || z.data[end] == 0
        }),
    ensures
        ({
            let start: int = if spelled(z.data, off, 2) == 0xffff {
                off + 12
            } else {
                off + 16
            };
            let url = z.data.subrange(start, end);
            zim::key_at(z, i) == Some(
                (
                    z.data[off + 3],
                    if utf8::valid_utf8(url) {
                        url
                    } else {
                        Seq::empty()
                    },
                ),
            )
        }),
{
    let ptr = z.header.url_ptr_pos + 8 * i;
    assert(ptr == z.header.url_ptr_pos + i * 8);
    lemma_spelled(z.data, ptr);
    lemma_spelled(z.data, off);
    if spelled(z.data, off, 2) == 0xffff {
        law_string_read(z.data, off + 12, end);
    } else {
        law_string_read(z.data, off + 16, end);
    }
}

/// A file that ends inside its magic or its header, or whose list of MIME types starts
/// behind its end, is malformed.
pub proof fn law_header_cut(b: Seq<u8>)
    requires
        b.len() < 4 || (spelled(b, 0, 4) == 0x044D_495A && (b.len() < 80 || spelled(b, 56, 8)
            > b.len())),
    ensures
        zim::opened(b) == Err::<(Header, Seq<Seq<char>>), Error>(Error::Malformed),
{
    if b.len() >= 4 {
        lemma_spelled(b, 0);
        if b.len() >= 80 {
            lemma_spelled(b, 56);
        }
    }
}

/// The MIME types are those up to the first empty string, or one that is not UTF-8, or the
/// end of the file. A list whose last string has no NUL byte is malformed.
pub proof fn law_strings_step(b: Seq<u8>, off: int, end: int)
    requires
        0 <= off <= end <= b.len(),
        forall|k: int| off <= k < end ==> #[trigger] b[k] != 0,
        end == b.len() || b[end] == 0,
    ensures
        off == end || !utf8::valid_utf8(b.subrange(off, end)) ==> zim::strings_at(b, off) == Ok::<
            Seq<Seq<char>>,
            Error,
        >(Seq::empty()),
        off < end && utf8::valid_utf8(b.subrange(off, end)) && end == b.len() ==> zim::strings_at(
            b,
            off,
        ) == Err::<Seq<Seq<char>>, Error>(Error::Malformed),
        off < end && utf8::valid_utf8(b.subrange(off, end)) && end < b.len() ==> zim::strings_at(
            b,
            off,
        ) == (match zim::strings_at(b, end + 1) {
            Ok(rest) => Ok(seq![utf8::decode_utf8(b.subrange(off, end))] + rest),
            Err(e) => Err(e),
        }),
{
    law_string_read(b, off, end);
    let none = Seq::<u8>::empty();
    assert(utf8::valid_utf8(none));
    assert(utf8::decode_utf8(none).len() == 0);
    if off == end {
        assert(b.subrange(off, end) =~= none);
    } else if utf8::valid_utf8(b.subrange(off, end)) {
        assert(utf8::decode_utf8(b.subrange(off, end)).len() > 0);
    }
}

/// Where the entry of the full-text index has no content, or its blob cannot be located, the
/// index cannot be found for that reason.
pub proof fn law_index_refused(z: ZimSpec, i: u32, e: Error)
    requires
        zim::entries_ok(z),
        i < z.header.entry_count,
        zim::key_at(z, i) == Some(
            (
                88u8,
                seq![102u8, 117, 108, 108, 116, 101, 120, 116, 47, 120, 97, 112, 105, 97, 110],
            ),
        ),
        forall|j: u32|
            j < z.header.entry_count && j != i ==> (#[trigger] zim::key_at(z, j)) != zim::key_at(
                z,
                i,
            ),
        zim::cluster_blob_of(z, i) == Err::<(u32, u32), Error>(e) || (zim::cluster_blob_of(
            z,
            i,
        ) matches Ok((c, k)) && zim::blob_at(z, c, k) == Err::<BlobLocation, Error>(e)),
    ensures
        zim::fulltext_of(z) == Err::<(u32, BlobLocation), Error>(e),
{
    law_fulltext_key();
    zim::law_find_entry(z, zim::fulltext_key().0, zim::fulltext_key().1);
}

} // verus!
