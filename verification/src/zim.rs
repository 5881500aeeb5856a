//! Minimal read-only ZIM container parser.
//!
//! Just enough to locate the embedded Xapian fulltext index blob (`X/fulltext/xapian`)
//! inside a ZIM v6 file and hand back its location. All multi-byte integers are
//! little-endian.

use crate::bytes;
use crate::bytes::{compare_bytes, rd_u16, rd_u32, rd_u64};
use crate::error::Error;
use vstd::prelude::*;
use vstd::string::StringExecFns;
use vstd::utf8;

verus! {

/// The bytes "ZIM" and 4, read as a little-endian integer.
pub const ZIM_MAGIC: u32 = 0x044D_495A;

/// The MIME type number of a redirect entry.
pub const MIME_REDIRECT: u16 = 0xffff;

/// The MIME type number of a link target entry.
pub const MIME_LINKTARGET: u16 = 0xfffe;

/// The MIME type number of a deleted entry.
pub const MIME_DELETED: u16 = 0xfffd;

/// Parsed ZIM header (the fields we care about).
#[derive(Debug, Clone, Copy)]
pub struct Header {
    pub major: u16,
    pub minor: u16,
    pub entry_count: u32,
    pub cluster_count: u32,
    pub url_ptr_pos: u64,
    pub title_ptr_pos: u64,
    pub cluster_ptr_pos: u64,
    pub mime_list_pos: u64,
    pub main_page: u32,
    pub checksum_pos: u64,
}

/// A located blob inside the ZIM: where its bytes live in the file.
#[derive(Debug, Clone, Copy)]
pub struct BlobLocation {
    /// Cluster index that holds the blob.
    pub cluster: u32,
    /// Blob index within the cluster.
    pub blob: u32,
    /// Compression type of the cluster: 1/0 = none, 4 = xz, 5 = zstd.
    pub compression: u8,
    /// True if the cluster uses 64-bit offsets ("extended").
    pub extended: bool,
    /// Absolute file offset of the blob's raw bytes, if the cluster is uncompressed.
    pub file_offset: Option<u64>,
    /// Length of the blob in bytes, if the cluster is uncompressed.
    pub length: u64,
}

/// An open archive.
pub struct Zim<'a> {
    /// The bytes of the file.
    pub data: &'a [u8],
    pub header: Header,
    pub mime_types: Vec<String>,
}

/// What reading an archive depends on.
pub struct ZimSpec {
    pub data: Seq<u8>,
    pub header: Header,
}

impl<'a> View for Zim<'a> {
    type V = ZimSpec;

    open spec fn view(&self) -> ZimSpec {
        ZimSpec { data: self.data@, header: self.header }
    }
}

/// The header of the file `b`.
pub open spec fn header_at(b: Seq<u8>) -> Header {
    Header {
        major: bytes::le16(b, 4) as u16,
        minor: bytes::le16(b, 6) as u16,
        entry_count: bytes::le32(b, 24) as u32,
        cluster_count: bytes::le32(b, 28) as u32,
        url_ptr_pos: bytes::le64(b, 32) as u64,
        title_ptr_pos: bytes::le64(b, 40) as u64,
        cluster_ptr_pos: bytes::le64(b, 48) as u64,
        mime_list_pos: bytes::le64(b, 56) as u64,
        main_page: bytes::le32(b, 64) as u32,
        checksum_pos: bytes::le64(b, 72) as u64,
    }
}

/// The offset of the first NUL byte at or behind `off`, or of the end of `b`.
pub open spec fn cstr_end(b: Seq<u8>, off: int) -> int
    decreases b.len() - off,
{
    if off < 0 || off >= b.len() || b[off] == 0 {
        off
    } else {
        cstr_end(b, off + 1)
    }
}

/// The bytes of the NUL-terminated string at offset `off`, or none where they are not
/// UTF-8.
pub open spec fn cstr_bytes(b: Seq<u8>, off: int) -> Seq<u8> {
    let raw = b.subrange(off, cstr_end(b, off));
    if utf8::valid_utf8(raw) {
        raw
    } else {
        Seq::empty()
    }
}

/// The NUL-terminated strings from offset `off` up to an empty one.
pub open spec fn strings_at(b: Seq<u8>, off: int) -> Result<Seq<Seq<char>>, Error>
    decreases b.len() + 1 - off,
{
    if off < 0 || off > b.len() {
        Err(Error::Malformed)
    } else {
        proof {
            lemma_cstr_end(b, off);
        }
        let text = utf8::decode_utf8(cstr_bytes(b, off));
        if text.len() == 0 {
            Ok(Seq::empty())
        } else {
            match strings_at(b, cstr_end(b, off) + 1) {
                Ok(rest) => Ok(seq![text] + rest),
                Err(e) => Err(e),
            }
        }
    }
}

/// A NUL-terminated string ends inside the file.
pub proof fn lemma_cstr_end(b: Seq<u8>, off: int)
    requires
        0 <= off <= b.len(),
    ensures
        off <= cstr_end(b, off) <= b.len(),
    decreases b.len() - off,
{
    if off < b.len() && b[off] != 0 {
        lemma_cstr_end(b, off + 1);
    }
}

/// The header and the MIME types of the file `b`.
pub open spec fn opened(b: Seq<u8>) -> Result<(Header, Seq<Seq<char>>), Error> {
    if b.len() < 4 {
        Err(Error::Malformed)
    } else if bytes::le32(b, 0) != ZIM_MAGIC {
        Err(Error::NotZim { magic: bytes::le32(b, 0) as u32 })
    } else if b.len() < 80 {
        Err(Error::Malformed)
    } else {
        match strings_at(b, header_at(b).mime_list_pos as int) {
            Ok(types) => Ok((header_at(b), types)),
            Err(e) => Err(e),
        }
    }
}

/// The offset of directory entry `i`, or `None` where the pointer to it does not lie
/// inside the file.
pub open spec fn dirent_at(z: ZimSpec, i: u32) -> Option<int> {
    let ptr = z.header.url_ptr_pos + i * 8;
    if ptr + 8 <= z.data.len() {
        Some(bytes::le64(z.data, ptr))
    } else {
        None
    }
}

/// The namespace and URL of directory entry `i`: the namespace is its fourth byte, and
/// the URL starts at its 17th, or at its 13th in a redirect entry. `None` where one of
/// them does not lie inside the file.
pub open spec fn key_at(z: ZimSpec, i: u32) -> Option<(u8, Seq<u8>)> {
    match dirent_at(z, i) {
        None => None,
        Some(off) => if off + 4 > z.data.len() {
            None
        } else {
            let url = if bytes::le16(z.data, off) == MIME_REDIRECT {
                off + 12
            } else {
                off + 16
            };
            if url > z.data.len() {
                None
            } else {
                Some((z.data[off + 3], cstr_bytes(z.data, url)))
            }
        },
    }
}

/// The order of directory entries: by namespace, then by the bytes of the URL.
pub open spec fn key_lt(a: (u8, Seq<u8>), b: (u8, Seq<u8>)) -> bool {
    a.0 < b.0 || (a.0 == b.0 && bytes::lex_lt(a.1, b.1))
}

/// Binary search for `key` among the directory entries from `lo` to `hi`. `Err` where an
/// entry that is looked at is not readable.
pub open spec fn search(z: ZimSpec, key: (u8, Seq<u8>), lo: int, hi: int) -> Result<
    Option<u32>,
    Error,
>
    decreases hi - lo + 1,
{
    if lo > hi {
        Ok(None)
    } else {
        let mid = (lo + hi) / 2;
        match key_at(z, mid as u32) {
            None => Err(Error::Malformed),
            Some(k) => if key_lt(k, key) {
                search(z, key, mid + 1, hi)
            } else if key_lt(key, k) {
                search(z, key, lo, mid - 1)
            } else {
                Ok(Some(mid as u32))
            },
        }
    }
}

/// Binary search for `key` among all directory entries.
pub open spec fn entry_of(z: ZimSpec, key: (u8, Seq<u8>)) -> Result<Option<u32>, Error> {
    search(z, key, 0, z.header.entry_count - 1)
}

/// The cluster and blob number of content entry `i`.
pub open spec fn cluster_blob_of(z: ZimSpec, i: u32) -> Result<(u32, u32), Error> {
    match dirent_at(z, i) {
        None => Err(Error::Malformed),
        Some(off) => if off + 2 > z.data.len() {
            Err(Error::Malformed)
        } else {
            let mime = bytes::le16(z.data, off) as u16;
            if mime == MIME_REDIRECT || mime == MIME_LINKTARGET || mime == MIME_DELETED {
                Err(Error::NotContent { entry: i, mime })
            } else if off + 16 > z.data.len() {
                Err(Error::Malformed)
            } else {
                Ok((bytes::le32(z.data, off + 8) as u32, bytes::le32(z.data, off + 12) as u32))
            }
        },
    }
}

/// The location of blob `blob` of cluster `cluster`.
///
/// A cluster starts with a byte that holds the compression type and, above it, whether
/// its blob offsets take eight bytes each or four. The offsets follow; they count from
/// just behind that first byte, and each blob ends where the next one starts.
pub open spec fn blob_at(z: ZimSpec, cluster: u32, blob: u32) -> Result<BlobLocation, Error> {
    let ptr = z.header.cluster_ptr_pos + cluster * 8;
    if ptr + 8 > z.data.len() {
        Err(Error::Malformed)
    } else {
        let at = bytes::le64(z.data, ptr);
        if at >= z.data.len() {
            Err(Error::Malformed)
        } else {
            let compression = z.data[at] % 16;
            let extended = (z.data[at] / 16) % 2 == 1;
            if compression > 1 {
                Ok(
                    BlobLocation {
                        cluster,
                        blob,
                        compression,
                        extended,
                        file_offset: None,
                        length: 0,
                    },
                )
            } else {
                let width = if extended {
                    8int
                } else {
                    4int
                };
                let from = at + 1 + blob * width;
                if from + 2 * width > z.data.len() {
                    Err(Error::Malformed)
                } else {
                    let start = if extended {
                        bytes::le64(z.data, from)
                    } else {
                        bytes::le32(z.data, from)
                    };
                    let end = if extended {
                        bytes::le64(z.data, from + 8)
                    } else {
                        bytes::le32(z.data, from + 4)
                    };
                    if start > end || at + 1 + start > u64::MAX {
                        Err(Error::Malformed)
                    } else {
                        Ok(
                            BlobLocation {
                                cluster,
                                blob,
                                compression,
                                extended,
                                file_offset: Some((at + 1 + start) as u64),
                                length: (end - start) as u64,
                            },
                        )
                    }
                }
            }
        }
    }
}

/// The namespace and URL of the full-text index.
pub open spec fn fulltext_key() -> (u8, Seq<u8>) {
    (0x58u8, utf8::encode_utf8("fulltext/xapian"@))
}

/// The directory entry and location of the full-text index.
pub open spec fn fulltext_of(z: ZimSpec) -> Result<(u32, BlobLocation), Error> {
    match entry_of(z, fulltext_key()) {
        Err(e) => Err(e),
        Ok(None) => Err(Error::NoFulltextIndex),
        Ok(Some(i)) => match cluster_blob_of(z, i) {
            Err(e) => Err(e),
            Ok((cluster, blob)) => match blob_at(z, cluster, blob) {
                Err(e) => Err(e),
                Ok(loc) => Ok((i, loc)),
            },
        },
    }
}

/// Calls `std::str::from_utf8`, which succeeds on exactly the byte strings that are
/// UTF-8, and gives the text that they encode.
#[verifier::external_body]
fn utf8_text<'a>(b: &'a [u8]) -> (r: Option<&'a str>)
    ensures
        match r {
            Some(s) => utf8::valid_utf8(b@) && s@ == utf8::decode_utf8(b@),
            None => !utf8::valid_utf8(b@),
        },
{
    std::str::from_utf8(b).ok()
}

/// The text of the NUL-terminated string at offset `off`, empty where the bytes are not
/// UTF-8, and the offset of its end.
fn cstr_at<'a>(b: &'a [u8], off: usize) -> (r: (&'a str, usize))
    requires
        off <= b.len(),
    ensures
        r.0@ == utf8::decode_utf8(cstr_bytes(b@, off as int)),
        utf8::encode_utf8(r.0@) == cstr_bytes(b@, off as int),
        r.1 == cstr_end(b@, off as int),
        off <= r.1 <= b.len(),
{
    let mut i: usize = off;
    while i < b.len() && b[i] != 0
        invariant
            off <= i <= b.len(),
            cstr_end(b@, off as int) == cstr_end(b@, i as int),
        decreases b.len() - i,
    {
        i += 1;
    }
    proof {
        let raw = cstr_bytes(b@, off as int);
        let none = Seq::<u8>::empty();
        assert(utf8::valid_utf8(none));
        utf8::decode_utf8_encode_utf8(raw);
        reveal_strlit("");
        assert(""@ =~= utf8::decode_utf8(none));
    }
    match utf8_text(&b[off..i]) {
        Some(text) => (text, i),
        None => ("", i),
    }
}

/// Read the NUL-terminated string at offset `off`: its text, empty where the bytes are not
/// UTF-8, and the offset behind its NUL byte (or behind where one would stand, at the end
/// of `b`).
pub fn read_cstr<'a>(b: &'a [u8], off: usize) -> (r: (&'a str, usize))
    requires
        off <= b.len() < usize::MAX,
    ensures
        r.0@ == utf8::decode_utf8(cstr_bytes(b@, off as int)),
        utf8::encode_utf8(r.0@) == cstr_bytes(b@, off as int),
        r.1 == cstr_end(b@, off as int) + 1,
{
    let (text, end): (&'a str, usize) = cstr_at(b, off);
    (text, end + 1)
}

impl<'a> Zim<'a> {
    /// Open an archive, given the bytes of its file: check the magic, then read the header
    /// and the MIME type list (NUL-terminated strings, ended by an empty string).
    pub fn open(data: &'a [u8]) -> (r: Result<Zim<'a>, Error>)
        ensures
            match opened(data@) {
                Ok((header, types)) => r matches Ok(z) && z.data@ == data@ && z.header == header
                    && z.mime_types@.len() == types.len() && forall|k: int|
                    0 <= k < types.len() ==> (#[trigger] z.mime_types@[k])@ == types[k],
                Err(e) => r == Err::<Zim<'a>, Error>(e),
            },
    {
        if data.len() < 4 {
            return Err(Error::Malformed);
        }
        let magic: u32 = rd_u32(data, 0);
        if magic != ZIM_MAGIC {
            return Err(Error::NotZim { magic });
        }
        if data.len() < 80 {
            return Err(Error::Malformed);
        }
        let header: Header = Header {
            major: rd_u16(data, 4),
            minor: rd_u16(data, 6),
            entry_count: rd_u32(data, 24),
            cluster_count: rd_u32(data, 28),
            url_ptr_pos: rd_u64(data, 32),
            title_ptr_pos: rd_u64(data, 40),
            cluster_ptr_pos: rd_u64(data, 48),
            mime_list_pos: rd_u64(data, 56),
            main_page: rd_u32(data, 64),
            checksum_pos: rd_u64(data, 72),
        };
        assert(header == header_at(data@));
        if header.mime_list_pos > data.len() as u64 {
            return Err(Error::Malformed);
        }
        let mut mime_types: Vec<String> = Vec::new();
        let mut off: usize = header.mime_list_pos as usize;
        let ghost whole = strings_at(data@, off as int);
        let ghost mut done: Seq<Seq<char>> = Seq::empty();
        proof {
            if let Ok(rest) = whole {
                assert(done + rest =~= rest);
            }
        }
        loop
            invariant
                off <= data.len(),
                data.len() >= 80,
                header == header_at(data@),
                bytes::le32(data@, 0) == ZIM_MAGIC,
                whole == strings_at(data@, header.mime_list_pos as int),
                mime_types@.len() == done.len(),
                forall|k: int| 0 <= k < done.len() ==> (#[trigger] mime_types@[k])@ == done[k],
                whole == (match strings_at(data@, off as int) {
                    Ok(rest) => Ok(done + rest),
                    Err(e) => Err(e),
                }),
            decreases data.len() - off,
        {
            let (text, end): (&'a str, usize) = cstr_at(data, off);
            if text.is_empty() {
                assert(done + Seq::<Seq<char>>::empty() =~= done);
                return Ok(Zim { data, header, mime_types });
            }
            let ghost before = done;
            proof {
                if let Ok(rest) = strings_at(data@, end + 1) {
                    assert(before + (seq![text@] + rest) =~= before.push(text@) + rest);
                }
            }
            if end >= data.len() {
                assert(strings_at(data@, end + 1) == Err::<Seq<Seq<char>>, Error>(
                    Error::Malformed,
                ));
                return Err(Error::Malformed);
            }
            mime_types.push(String::from_str(text));
            proof {
                done = before.push(text@);
            }
            off = end + 1;
        }
    }

    /// Offset of the i-th directory entry (via the URL pointer list).
    fn dirent_offset(&self, i: u32) -> (r: Option<u64>)
        ensures
            match dirent_at(self@, i) {
                Some(off) => r == Some(off as u64) && 0 <= off <= u64::MAX,
                None => r is None,
            },
    {
        let len: u64 = self.data.len() as u64;
        let skip: u64 = i as u64 * 8;
        let pos: u64 = self.header.url_ptr_pos;
        if pos > len || len - pos < 8 || skip > len - pos - 8 {
            return None;
        }
        Some(rd_u64(self.data, (pos + skip) as usize))
    }

    /// Read the (namespace, url) sort key of the i-th entry.
    pub fn entry_key(&self, i: u32) -> (r: Option<(u8, &'a str)>)
        ensures
            match key_at(self@, i) {
                Some((namespace, url)) => r matches Some((n, u)) && n == namespace && utf8::encode_utf8(u@)
                    == url,
                None => r is None,
            },
    {
        let b: &'a [u8] = self.data;
        let off: usize = match self.dirent_offset(i) {
            Some(off) => if b.len() < 4 || off > b.len() as u64 - 4 {
                return None;
            } else {
                off as usize
            },
            None => return None,
        };
        let skip: usize = if rd_u16(b, off) == MIME_REDIRECT {
            12
        } else {
            16
        };
        if skip > b.len() - off {
            return None;
        }
        let (url, _): (&'a str, usize) = cstr_at(b, off + skip);
        Some((b[off + 3], url))
    }

    /// Binary search the URL pointer list for (namespace, url). Entries are sorted by
    /// (namespace, url) byte order. Fails where an entry that is looked at is not readable.
    pub fn try_find_entry(&self, namespace: u8, url: &str) -> (r: Result<Option<u32>, Error>)
        ensures
            r == entry_of(self@, (namespace, utf8::encode_utf8(url@))),
    {
        let ghost key = (namespace, utf8::encode_utf8(url@));
        let target: &[u8] = url.as_bytes();
        let mut lo: i64 = 0;
        let mut hi: i64 = self.header.entry_count as i64 - 1;
        while lo <= hi
            invariant
                0 <= lo <= 0x1_0000_0000,
                -1 <= hi < 0x1_0000_0000,
                target@ == utf8::encode_utf8(url@),
                key == (namespace, target@),
                entry_of(self@, key) == search(self@, key, lo as int, hi as int),
            decreases hi - lo + 1,
        {
            let mid: i64 = (lo + hi) / 2;
            let (n, u): (u8, &'a str) = match self.entry_key(mid as u32) {
                Some(k) => k,
                None => return Err(Error::Malformed),
            };
            let order: i32 = if n < namespace {
                -1
            } else if n > namespace {
                1
            } else {
                compare_bytes(u.as_bytes(), target)
            };
            proof {
                bytes::law_lex_total(utf8::encode_utf8(u@), target@);
                bytes::law_lex_irreflexive(target@);
            }
            if order < 0 {
                lo = mid + 1;
            } else if order > 0 {
                hi = mid - 1;
            } else {
                return Ok(Some(mid as u32));
            }
        }
        Ok(None)
    }

    /// Binary search the URL pointer list for (namespace, url), in an archive where the
    /// entries that are looked at are readable.
    pub fn find_entry(&self, namespace: u8, url: &str) -> (r: Option<u32>)
        requires
            entry_of(self@, (namespace, utf8::encode_utf8(url@))) is Ok,
        ensures
            entry_of(self@, (namespace, utf8::encode_utf8(url@))) == Ok::<Option<u32>, Error>(r),
    {
        match self.try_find_entry(namespace, url) {
            Ok(found) => found,
            Err(_) => None,
        }
    }

    /// Resolve a content entry index to (cluster, blob). Follows nothing; errors on
    /// redirect.
    pub fn entry_cluster_blob(&self, i: u32) -> (r: Result<(u32, u32), Error>)
        ensures
            r == cluster_blob_of(self@, i),
    {
        let b: &'a [u8] = self.data;
        let off: usize = match self.dirent_offset(i) {
            Some(off) => if b.len() < 2 || off > b.len() as u64 - 2 {
                return Err(Error::Malformed);
            } else {
                off as usize
            },
            None => return Err(Error::Malformed),
        };
        let mime: u16 = rd_u16(b, off);
        if mime == MIME_REDIRECT || mime == MIME_LINKTARGET || mime == MIME_DELETED {
            return Err(Error::NotContent { entry: i, mime });
        }
        if b.len() - off < 16 {
            return Err(Error::Malformed);
        }
        Ok((rd_u32(b, off + 8), rd_u32(b, off + 12)))
    }

    /// Locate a blob's bytes (offset and length) given its cluster and blob index.
    pub fn locate_blob(&self, cluster: u32, blob: u32) -> (r: Result<BlobLocation, Error>)
        ensures
            r == blob_at(self@, cluster, blob),
    {
        let b: &'a [u8] = self.data;
        let len: u64 = b.len() as u64;
        let pos: u64 = self.header.cluster_ptr_pos;
        let skip: u64 = cluster as u64 * 8;
        if pos > len || len - pos < 8 || skip > len - pos - 8 {
            return Err(Error::Malformed);
        }
        let at: u64 = rd_u64(b, (pos + skip) as usize);
        if at >= len {
            return Err(Error::Malformed);
        }
        let info: u8 = b[at as usize];
        let compression: u8 = info % 16;
        let extended: bool = (info / 16) % 2 == 1;
        if compression > 1 {
            return Ok(
                BlobLocation {
                    cluster,
                    blob,
                    compression,
                    extended,
                    file_offset: None,
                    length: 0,
                },
            );
        }
        let width: u64 = if extended {
            8
        } else {
            4
        };
        let room: u64 = len - at - 1;
        let skip: u64 = if extended {
            blob as u64 * 8
        } else {
            blob as u64 * 4
        };
        if room < 2 * width || skip > room - 2 * width {
            return Err(Error::Malformed);
        }
        let from: usize = (at + 1 + skip) as usize;
        let (start, end): (u64, u64) = if extended {
            (rd_u64(b, from), rd_u64(b, from + 8))
        } else {
            (rd_u32(b, from) as u64, rd_u32(b, from + 4) as u64)
        };
        if start > end {
            return Err(Error::Malformed);
        }
        match (at + 1).checked_add(start) {
            Some(offset) => Ok(
                BlobLocation {
                    cluster,
                    blob,
                    compression,
                    extended,
                    file_offset: Some(offset),
                    length: end - start,
                },
            ),
            None => Err(Error::Malformed),
        }
    }

    /// Convenience: locate the Xapian fulltext index blob (namespace 'X',
    /// "fulltext/xapian"). Returns the blob location plus the entry index.
    pub fn find_fulltext_index(&self) -> (r: Result<(u32, BlobLocation), Error>)
        ensures
            r == fulltext_of(self@),
    {
        let i: u32 = match self.try_find_entry(0x58, "fulltext/xapian") {
            Ok(Some(i)) => i,
            Ok(None) => return Err(Error::NoFulltextIndex),
            Err(e) => return Err(e),
        };
        let (cluster, blob): (u32, u32) = match self.entry_cluster_blob(i) {
            Ok(found) => found,
            Err(e) => return Err(e),
        };
        match self.locate_blob(cluster, blob) {
            Ok(loc) => Ok((i, loc)),
            Err(e) => Err(e),
        }
    }

    /// Borrow the raw bytes (for the glass reader to read in-place).
    pub fn raw(&self) -> (r: &'a [u8])
        ensures
            r@ == self@.data,
    {
        self.data
    }

    /// The bytes of a blob of an uncompressed cluster, as far as they lie inside the file,
    /// and the offset at which they start. `None` for a compressed cluster, or where the
    /// blob starts behind the end of the file.
    pub fn blob_bytes(&self, loc: &BlobLocation) -> (r: Option<(usize, &'a [u8])>)
        ensures
            match loc.file_offset {
                Some(off) => if off <= self@.data.len() {
                    r matches Some((base, b)) && base == off && b@ == self@.data.subrange(
                        off as int,
                        if off + loc.length <= self@.data.len() {
                            off + loc.length
                        } else {
                            self@.data.len() as int
                        },
                    )
                } else {
                    r is None
                },
                None => r is None,
            },
    {
        let len: u64 = self.data.len() as u64;
        match loc.file_offset {
            Some(off) => {
                if off > len {
                    return None;
                }
                let end: u64 = if loc.length <= len - off {
                    off + loc.length
                } else {
                    len
                };
                Some((off as usize, &self.data[off as usize..end as usize]))
            },
            None => None,
        }
    }
}

/// Every directory entry is readable, and they stand in (namespace, URL) order.
pub open spec fn entries_ok(z: ZimSpec) -> bool {
    &&& forall|i: u32| i < z.header.entry_count ==> (#[trigger] key_at(z, i)) is Some
    &&& forall|i: u32, j: u32|
        i < j < z.header.entry_count ==> !key_lt(
            (#[trigger] key_at(z, j)).unwrap(),
            (#[trigger] key_at(z, i)).unwrap(),
        )
}

/// No key precedes itself.
pub proof fn law_key_irreflexive(a: (u8, Seq<u8>))
    ensures
        !key_lt(a, a),
{
    bytes::law_lex_irreflexive(a.1);
}

/// The order of directory entries is transitive.
pub proof fn law_key_transitive(a: (u8, Seq<u8>), b: (u8, Seq<u8>), c: (u8, Seq<u8>))
    requires
        key_lt(a, b),
        key_lt(b, c),
    ensures
        key_lt(a, c),
{
    if a.0 == b.0 && b.0 == c.0 {
        bytes::law_lex_transitive(a.1, b.1, c.1);
    }
}

/// Of two keys exactly one precedes the other, unless they are equal.
pub proof fn law_key_total(a: (u8, Seq<u8>), b: (u8, Seq<u8>))
    ensures
        key_lt(a, b) || key_lt(b, a) || a == b,
        !(key_lt(a, b) && key_lt(b, a)),
{
    bytes::law_lex_total(a.1, b.1);
}

proof fn lemma_search(z: ZimSpec, key: (u8, Seq<u8>), lo: int, hi: int)
    requires
        entries_ok(z),
        0 <= lo,
        hi < z.header.entry_count,
        forall|i: u32| i < lo ==> key_lt((#[trigger] key_at(z, i)).unwrap(), key),
        forall|i: u32|
            hi < i < z.header.entry_count ==> key_lt(key, (#[trigger] key_at(z, i)).unwrap()),
    ensures
        match search(z, key, lo, hi) {
            Ok(Some(i)) => i < z.header.entry_count && key_at(z, i) == Some(key),
            Ok(None) => forall|i: u32|
                i < z.header.entry_count ==> (#[trigger] key_at(z, i)) != Some(key),
            Err(_) => false,
        },
    decreases hi - lo + 1,
{
    law_key_irreflexive(key);
    if lo <= hi {
        let mid = (lo + hi) / 2;
        let k = key_at(z, mid as u32).unwrap();
        assert(key_at(z, mid as u32) is Some);
        if key_lt(k, key) {
            assert forall|i: u32| i < mid + 1 implies key_lt(
                (#[trigger] key_at(z, i)).unwrap(),
                key,
            ) by {
                let x = key_at(z, i).unwrap();
                law_key_total(x, k);
                if key_lt(x, k) {
                    law_key_transitive(x, k, key);
                }
            }
            lemma_search(z, key, mid + 1, hi);
        } else if key_lt(key, k) {
            assert forall|i: u32| mid - 1 < i < z.header.entry_count implies key_lt(
                key,
                (#[trigger] key_at(z, i)).unwrap(),
            ) by {
                let x = key_at(z, i).unwrap();
                law_key_total(x, k);
                if key_lt(k, x) {
                    law_key_transitive(key, k, x);
                }
            }
            lemma_search(z, key, lo, mid - 1);
        } else {
            law_key_total(k, key);
        }
    }
}

/// In an archive whose directory is readable and sorted, the search finds an entry with
/// the given namespace and URL exactly where there is one.
pub proof fn law_find_entry(z: ZimSpec, namespace: u8, url: Seq<u8>)
    requires
        entries_ok(z),
    ensures
        match entry_of(z, (namespace, url)) {
            Ok(Some(i)) => i < z.header.entry_count && key_at(z, i) == Some((namespace, url)),
            Ok(None) => forall|i: u32|
                i < z.header.entry_count ==> (#[trigger] key_at(z, i)) != Some((namespace, url)),
            Err(_) => false,
        },
{
    lemma_search(z, (namespace, url), 0, z.header.entry_count - 1);
}

/// In an archive whose directory is readable and sorted, and where one content entry has
/// the namespace and URL of the full-text index, the index is located through that entry.
pub proof fn law_fulltext_found(z: ZimSpec, i: u32)
    requires
        entries_ok(z),
        i < z.header.entry_count,
        key_at(z, i) == Some(fulltext_key()),
        forall|j: u32|
            j < z.header.entry_count && j != i ==> (#[trigger] key_at(z, j)) != Some(
                fulltext_key(),
            ),
        cluster_blob_of(z, i) is Ok,
    ensures
        fulltext_of(z) == (match blob_at(
            z,
            cluster_blob_of(z, i).unwrap().0,
            cluster_blob_of(z, i).unwrap().1,
        ) {
            Ok(loc) => Ok((i, loc)),
            Err(e) => Err(e),
        }),
{
    law_find_entry(z, fulltext_key().0, fulltext_key().1);
}

/// An archive whose directory is readable and sorted, and where no entry has the namespace
/// and URL of the full-text index, is reported to have none.
pub proof fn law_fulltext_missing(z: ZimSpec)
    requires
        entries_ok(z),
        forall|j: u32|
            j < z.header.entry_count ==> (#[trigger] key_at(z, j)) != Some(fulltext_key()),
    ensures
        fulltext_of(z) == Err::<(u32, BlobLocation), Error>(Error::NoFulltextIndex),
{
    law_find_entry(z, fulltext_key().0, fulltext_key().1);
}

/// The blobs of an uncompressed cluster lie one behind the other: each starts where the
/// one before it ends.
pub proof fn law_blobs_adjacent(z: ZimSpec, cluster: u32, blob: u32)
    requires
        blob < u32::MAX,
        blob_at(z, cluster, blob) is Ok,
        blob_at(z, cluster, (blob + 1) as u32) is Ok,
    ensures
        ({
            let this = blob_at(z, cluster, blob).unwrap();
            let next = blob_at(z, cluster, (blob + 1) as u32).unwrap();
            match this.file_offset {
                Some(off) => next.file_offset == Some((off + this.length) as u64) && off
                    + this.length <= u64::MAX,
                None => next.file_offset is None,
            }
        }),
{
}

/// Strings, each followed by a NUL byte, and one more NUL byte behind the last.
pub open spec fn packed_strings(list: Seq<Seq<u8>>) -> Seq<u8>
    decreases list.len(),
{
    if list.len() == 0 {
        seq![0u8]
    } else {
        list[0].push(0) + packed_strings(list.drop_first())
    }
}

/// A string without NUL bytes ends at the NUL byte behind it.
pub proof fn lemma_cstr_at(b: Seq<u8>, off: int, text: Seq<u8>, i: int)
    requires
        0 <= off,
        0 <= i <= text.len(),
        off + text.len() < b.len(),
        forall|k: int| 0 <= k < text.len() ==> b[off + k] == #[trigger] text[k],
        forall|k: int| 0 <= k < text.len() ==> #[trigger] text[k] != 0,
        b[off + text.len()] == 0,
    ensures
        cstr_end(b, off + i) == off + text.len(),
    decreases text.len() - i,
{
    if i < text.len() {
        assert(b[off + i] == text[i]);
        lemma_cstr_at(b, off, text, i + 1);
    }
}

/// A list of strings read back from its packing, whatever stands before and behind it, is
/// the list that was packed. The strings are UTF-8, not empty, and hold no NUL byte.
pub proof fn law_strings_round_trip(before: Seq<u8>, list: Seq<Seq<u8>>, behind: Seq<u8>)
    requires
        forall|i: int|
            0 <= i < list.len() ==> utf8::valid_utf8(#[trigger] list[i]) && list[i].len() > 0,
        forall|i: int, k: int|
            0 <= i < list.len() && 0 <= k < list[i].len() ==> #[trigger] list[i][k] != 0,
    ensures
        strings_at(before + packed_strings(list) + behind, before.len() as int) == Ok::<
            Seq<Seq<char>>,
            Error,
        >(list.map_values(|s: Seq<u8>| utf8::decode_utf8(s))),
    decreases list.len(),
{
    let b = before + packed_strings(list) + behind;
    let off = before.len() as int;
    let texts = list.map_values(|s: Seq<u8>| utf8::decode_utf8(s));
    if list.len() == 0 {
        let none = Seq::<u8>::empty();
        assert(b[off] == 0);
        assert(b.subrange(off, off) =~= none);
        assert(utf8::valid_utf8(none));
        assert(texts =~= Seq::<Seq<char>>::empty());
    } else {
        let text = list[0];
        let rest = list.drop_first();
        assert(b =~= (before + text.push(0)) + packed_strings(rest) + behind);
        assert forall|k: int| 0 <= k < text.len() implies b[off + k] == #[trigger] text[k]
            && text[k] != 0 by {
            assert(list[0][k] != 0);
        }
        lemma_cstr_at(b, off, text, 0);
        assert(b.subrange(off, off + text.len()) =~= text);
        assert forall|i: int| 0 <= i < rest.len() implies utf8::valid_utf8(#[trigger] rest[i])
            && rest[i].len() > 0 by {
            assert(rest[i] == list[i + 1]);
        }
        assert forall|i: int, k: int|
            0 <= i < rest.len() && 0 <= k < rest[i].len() implies #[trigger] rest[i][k] != 0 by {
            assert(rest[i] == list[i + 1]);
            assert(list[i + 1][k] != 0);
        }
        law_strings_round_trip(before + text.push(0), rest, behind);
        assert(utf8::decode_utf8(text).len() > 0);
        assert(texts =~= seq![utf8::decode_utf8(text)] + rest.map_values(
            |s: Seq<u8>| utf8::decode_utf8(s),
        ));
    }
}

} // verus!
