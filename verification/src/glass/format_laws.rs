//! What the bytes of a glass database mean: numbers, strings, items, blocks and keys.

use crate::bytes;
use crate::error::{Error, Stat};
use crate::glass::block;
use crate::glass::block::Leaf;
use crate::glass::inflate;
use crate::glass::postlist;
use crate::glass::sortable;
use crate::glass::table;
use crate::glass::table::{Slot, TableSpec};
use crate::glass::varint;
use crate::glass::version;
use crate::glass::version::VersionSpec;
use crate::glass::version_laws;
use vstd::arithmetic::power2::pow2;
use vstd::prelude::*;

verus! {

// Packed numbers and strings.

/// The number that groups of seven bits spell, least significant first, whatever the high
/// bits of the bytes are.
pub open spec fn group_value(s: Seq<u8>) -> nat
    decreases s.len(),
{
    if s.len() == 0 {
        0
    } else {
        (s[0] % 128) as nat + 128 * group_value(s.drop_first())
    }
}

/// A number runs up to and including the first byte below 128, padding with zero groups
/// included, and is what its groups of seven bits spell.
pub proof fn law_uint_groups(buf: Seq<u8>, pos: int, last: int)
    requires
        0 <= pos <= last < buf.len(),
        forall|k: int| pos <= k < last ==> #[trigger] buf[k] >= 128,
        buf[last] < 128,
    ensures
        varint::uint_at(buf, pos) == Some((group_value(buf.subrange(pos, last + 1)), last + 1)),
        varint::uint_end(buf, pos) == last + 1,
        varint::u64_at(buf, pos) == (if group_value(buf.subrange(pos, last + 1)) <= u64::MAX {
            Some((group_value(buf.subrange(pos, last + 1)) as u64, last + 1))
        } else {
            None
        }),
    decreases last - pos,
{
    let s = buf.subrange(pos, last + 1);
    assert(s.drop_first() =~= buf.subrange(pos + 1, last + 1));
    if pos < last {
        assert(buf[pos] >= 128);
        law_uint_groups(buf, pos + 1, last);
    } else {
        assert(group_value(s.drop_first()) == 0);
    }
}

/// A number that the buffer cuts short cannot be read, and all of it is consumed.
pub proof fn law_uint_cut(buf: Seq<u8>, pos: int)
    requires
        0 <= pos,
        forall|k: int| pos <= k < buf.len() ==> #[trigger] buf[k] >= 128,
    ensures
        varint::uint_at(buf, pos) is None,
        varint::u64_at(buf, pos) is None,
        varint::uint_end(buf, pos) == (if pos < buf.len() {
            buf.len() as int
        } else {
            pos
        }),
    decreases buf.len() - pos,
{
    if pos < buf.len() {
        assert(buf[pos] >= 128);
        law_uint_cut(buf, pos + 1);
    }
}

/// A string read back from behind its packed length is the string that was packed, and one
/// that the buffer cuts short cannot be read.
pub proof fn law_string_round_trip(before: Seq<u8>, text: Seq<u8>, behind: Seq<u8>, cut: int)
    requires
        text.len() <= u64::MAX,
        0 <= cut < text.len() || cut == 0,
    ensures
        varint::string_at(
            before + varint::packed_uint(text.len()) + text + behind,
            before.len() as int,
        ) == Some((text, (before + varint::packed_uint(text.len()) + text).len() as int)),
        cut < text.len() ==> varint::string_at(
            before + varint::packed_uint(text.len()) + text.take(cut),
            before.len() as int,
        ) is None,
{
    let len = varint::packed_uint(text.len());
    let all = before + len + text + behind;
    varint::law_uint_round_trip(before, text.len(), text + behind);
    assert(all =~= before + len + (text + behind));
    let start = (before.len() + len.len()) as int;
    assert(all.subrange(start, start + text.len()) =~= text);
    if cut < text.len() {
        varint::law_uint_round_trip(before, text.len(), text.take(cut));
    }
}

// Order-preserving numbers.

proof fn lemma_big_endian(s: Seq<u8>)
    ensures
        sortable::be_value(s) == bytes::le_value(s.reverse()),
    decreases s.len(),
{
    if s.len() > 0 {
        lemma_big_endian(s.drop_last());
        assert(s.reverse().drop_first() =~= s.drop_last().reverse());
        assert(s.reverse()[0] == s.last());
    }
}

proof fn lemma_big_endian_head(h: u8, s: Seq<u8>)
    ensures
        sortable::be_value(seq![h] + s) == h * sortable::pow256(s.len()) + sortable::be_value(s),
    decreases s.len(),
{
    let all = seq![h] + s;
    if s.len() == 0 {
        assert(all.drop_last() =~= Seq::<u8>::empty());
        assert(sortable::be_value(all.drop_last()) == 0);
        assert(all.last() == h);
        assert(sortable::pow256(0) == 1);
    } else {
        lemma_big_endian_head(h, s.drop_last());
        assert(all.drop_last() =~= seq![h] + s.drop_last());
        let p = sortable::pow256((s.len() - 1) as nat);
        assert((h * p) * 256 == h * (256 * p)) by (nonlinear_arith);
    }
}

/// A leading byte below 0x80 starts a two-byte big-endian number. A leading byte with `n`
/// less one ones at its top, for `n` of two to eight, stands before `n` more bytes: the
/// number is what the rest of the leading byte and those bytes spell, big-endian. Nothing
/// else is a number.
pub proof fn law_sortable_form(buf: Seq<u8>, pos: int, n: int)
    requires
        0 <= pos < buf.len(),
        2 <= n <= 8,
    ensures
        buf[pos] < 0x80 && pos + 2 <= buf.len() ==> sortable::sortable_at(buf, pos) == Some(
            (bytes::le_value(buf.subrange(pos, pos + 2).reverse()), pos + 2),
        ),
        buf[pos] < 0x80 && pos + 2 > buf.len() ==> sortable::sortable_at(buf, pos) is None,
        256 - pow2((9 - n) as nat) <= buf[pos] < 256 - pow2((8 - n) as nat) ==> {
            let rest = (buf[pos] - (256 - pow2((9 - n) as nat))) as u8;
            sortable::sortable_at(buf, pos) == (if pos + 1 + n <= buf.len() {
                Some(
                    (
                        bytes::le_value(
                            (seq![rest] + buf.subrange(pos + 1, pos + 1 + n)).reverse(),
                        ),
                        pos + 1 + n,
                    ),
                )
            } else {
                None
            })
        },
        buf[pos] == 0xff ==> sortable::sortable_at(buf, pos) is None,
{
    vstd::arithmetic::power2::lemma2_to64();
    if buf[pos] < 0x80 && pos + 2 <= buf.len() {
        lemma_big_endian(buf.subrange(pos, pos + 2));
    }
    if 256 - pow2((9 - n) as nat) <= buf[pos] < 256 - pow2((8 - n) as nat) {
        let rest = (buf[pos] - (256 - pow2((9 - n) as nat))) as u8;
        assert(sortable::tail_len(buf[pos]) == n);
        assert(sortable::lead_base(n as nat) == 256 - pow2((9 - n) as nat));
        if pos + 1 + n <= buf.len() {
            let tail = buf.subrange(pos + 1, pos + 1 + n);
            lemma_big_endian(seq![rest] + tail);
            lemma_big_endian_head(rest, tail);
        }
    }
}

/// A number is encoded in as few bytes as can hold it: two bytes up to 15 bits, and then
/// three for 22 bits and seven bits more for each further byte.
pub proof fn law_sortable_shortest(v: u64)
    ensures
        v < pow2(15) <==> sortable::sortable(v).len() == 2,
        v >= pow2(15) ==> {
            let n = sortable::sortable(v).len();
            &&& 3 <= n <= 9
            &&& v < pow2((7 * n + 1) as nat)
            &&& n > 3 ==> v >= pow2((7 * n - 6) as nat)
        },
{
    vstd::arithmetic::power2::lemma2_to64();
    vstd::arithmetic::power2::lemma2_to64_rest();
    let n = sortable::tail_len_for(v);
    lemma_bytes_len(v as nat, 2);
    lemma_bytes_len(v as nat, n);
}

proof fn lemma_bytes_len(v: nat, n: nat)
    ensures
        sortable::be_bytes(v, n).len() == n,
    decreases n,
{
    if n > 0 {
        lemma_bytes_len(v / 256, (n - 1) as nat);
    }
}

// Items and blocks.

/// The packing of a leaf item: flags and size, key behind its length, the chunk number of
/// an item that is not a first chunk, and the chunk.
pub open spec fn packed_leaf(item: Leaf) -> Seq<u8> {
    let number = if item.first {
        Seq::<u8>::empty()
    } else {
        seq![(item.component / 256) as u8, (item.component % 256) as u8]
    };
    let body = item.key + number + item.chunk;
    let flags: int = (if item.compressed {
        4int
    } else {
        0
    }) + (if item.last {
        2int
    } else {
        0
    }) + (if item.first {
        1int
    } else {
        0
    });
    seq![
        (32 * flags + body.len() / 256) as u8,
        (body.len() % 256) as u8,
        item.key.len() as u8,
    ] + body
}

/// A leaf item read back from where a directory slot says that its packing stands is the
/// item that was packed.
pub proof fn law_leaf_round_trip(d: Seq<u8>, c: int, item: Leaf)
    requires
        0 <= c,
        c + 2 <= d.len(),
        item.key.len() <= 255,
        item.first ==> item.component == 1,
        0 <= item.component < 0x1_0000,
        packed_leaf(item).len() < 8192 + 3,
        256 * d[c] + d[c + 1] + packed_leaf(item).len() <= d.len(),
        d.subrange(
            256 * d[c] + d[c + 1],
            256 * d[c] + d[c + 1] + packed_leaf(item).len(),
        ) == packed_leaf(item),
    ensures
        block::leaf_at(d, c) == Some(item),
{
    bytes::law_big_endian(d, c);
    let off = 256 * d[c] + d[c + 1];
    let p = packed_leaf(item);
    let k = item.key.len() as int;
    assert forall|x: int| 0 <= x < p.len() implies #[trigger] d[off + x] == p[x] by {
        assert(d.subrange(off, off + p.len())[x] == d[off + x]);
    }
    assert(d[off + 0] == p[0] && d[off + 1] == p[1] && d[off + 2] == p[2]);
    bytes::law_big_endian(d, off);
    let size = p.len() - 3;
    assert(bytes::be16(d, off) % 8192 == size);
    assert(d.subrange(off + 3, off + 3 + k) =~= item.key) by {
        assert forall|x: int| 0 <= x < k implies d.subrange(off + 3, off + 3 + k)[x]
            == #[trigger] item.key[x] by {
            assert(d[off + (3 + x)] == p[3 + x]);
        }
    }
    let start = if item.first {
        3 + k
    } else {
        5 + k
    };
    if !item.first {
        assert(d[off + (3 + k)] == p[3 + k] && d[off + (4 + k)] == p[4 + k]);
        bytes::law_big_endian(d, off + 3 + k);
    }
    assert(d.subrange(off + start, off + p.len()) =~= item.chunk) by {
        assert forall|x: int| 0 <= x < item.chunk.len() implies d.subrange(
            off + start,
            off + p.len(),
        )[x] == #[trigger] item.chunk[x] by {
            assert(d[off + (start + x)] == p[start + x]);
        }
    }
}

/// The packing of a branch item: the child block, the key behind its length, and the chunk
/// number.
pub open spec fn packed_branch(child: u32, key: Seq<u8>, component: int) -> Seq<u8> {
    seq![
        (child / 0x100_0000) as u8,
        ((child / 0x1_0000) % 256) as u8,
        ((child / 0x100) % 256) as u8,
        (child % 256) as u8,
        key.len() as u8,
    ] + key + seq![(component / 256) as u8, (component % 256) as u8]
}

/// A branch item read back from where a directory slot says that its packing stands is the
/// item that was packed.
pub proof fn law_branch_round_trip(d: Seq<u8>, c: int, child: u32, key: Seq<u8>, component: int)
    requires
        0 <= c,
        c + 2 <= d.len(),
        key.len() <= 255,
        0 <= component < 0x1_0000,
        256 * d[c] + d[c + 1] + packed_branch(child, key, component).len() <= d.len(),
        d.subrange(
            256 * d[c] + d[c + 1],
            256 * d[c] + d[c + 1] + packed_branch(child, key, component).len(),
        ) == packed_branch(child, key, component),
    ensures
        block::branch_at(d, c) == Some((key, component)),
        block::child_at(d, c) == Some(child as u64),
{
    bytes::law_big_endian(d, c);
    let off = 256 * d[c] + d[c + 1];
    let p = packed_branch(child, key, component);
    let k = key.len() as int;
    assert forall|x: int| 0 <= x < p.len() implies #[trigger] d[off + x] == p[x] by {
        assert(d.subrange(off, off + p.len())[x] == d[off + x]);
    }
    assert(d[off + 0] == p[0] && d[off + 1] == p[1] && d[off + 2] == p[2] && d[off + 3] == p[3]
        && d[off + 4] == p[4]);
    bytes::law_big_endian(d, off);
    assert(d.subrange(off + 5, off + 5 + k) =~= key) by {
        assert forall|x: int| 0 <= x < k implies d.subrange(off + 5, off + 5 + k)[x]
            == #[trigger] key[x] by {
            assert(d[off + (5 + x)] == p[5 + x]);
        }
    }
    assert(d[off + (5 + k)] == p[5 + k] && d[off + (6 + k)] == p[6 + k]);
    bytes::law_big_endian(d, off + 5 + k);
}

/// A slot or an item that does not lie inside its block has nothing to read.
pub proof fn law_item_outside(d: Seq<u8>, c: int)
    ensures
        c < 0 || c + 2 > d.len() ==> block::leaf_at(d, c) is None && block::branch_at(d, c) is None
            && block::child_at(d, c) is None,
        0 <= c && c + 2 <= d.len() && 256 * d[c] + d[c + 1] + 3 > d.len() ==> block::leaf_at(
            d,
            c,
        ) is None && block::branch_at(d, c) is None && block::child_at(d, c) is None,
{
    bytes::law_big_endian(d, c);
}

/// Block `n` is the `n`th run of block-size bytes behind the start of the database, and is
/// out of range exactly where the file ends before the block does.
pub proof fn law_block(t: TableSpec, n: u64)
    ensures
        t.base + (n + 1) * t.block_size <= t.file.len() ==> (table::block_at(t, n) matches Some(d)
            && d.len() == t.block_size && forall|i: int|
            0 <= i < t.block_size ==> #[trigger] d[i] == t.file[t.base + n * t.block_size + i]),
        t.base + (n + 1) * t.block_size > t.file.len() ==> table::block_at(t, n) is None,
        table::out_of_range(t, n) == (Error::BlockOutOfRange { block: n, table: t.name }),
{
    assert((n + 1) * t.block_size == n * t.block_size + t.block_size) by (nonlinear_arith);
    assert(0 <= n * t.block_size) by (nonlinear_arith);
}

/// Where the root block is out of range, every way into the table fails over it.
pub proof fn law_root_outside(t: TableSpec, key: Seq<u8>)
    requires
        t.base + (t.root + 1) * t.block_size > t.file.len(),
    ensures
        table::descend(t, key, t.root, t.level) == Err::<(Seq<Slot>, bool), Error>(
            Error::BlockOutOfRange { block: t.root, table: t.name },
        ),
        table::leftmost(t, t.root, t.level) == Err::<Seq<Slot>, Error>(
            Error::BlockOutOfRange { block: t.root, table: t.name },
        ),
{
    law_block(t, t.root);
}

/// The bytes of a tag that is not compressed are the tag; those of a compressed one stand
/// for what they decompress to, and the failure to decompress them is passed on.
pub proof fn law_unpacked(raw: Seq<u8>)
    ensures
        inflate::unpacked(raw, false) == Ok::<Seq<u8>, Error>(raw),
        inflate::inflated(raw) matches Ok(data) ==> inflate::unpacked(raw, true) == Ok::<
            Seq<u8>,
            Error,
        >(data),
        inflate::inflated(raw) == Err::<Seq<u8>, bool>(true) ==> inflate::unpacked(raw, true)
            == Err::<Seq<u8>, Error>(Error::DeflateIncomplete),
        inflate::inflated(raw) == Err::<Seq<u8>, bool>(false) ==> inflate::unpacked(raw, true)
            == Err::<Seq<u8>, Error>(Error::DeflateCorrupt),
{
}

// Keys and postings.

/// Escaping goes byte by byte: NUL becomes NUL and 0xff, and any other byte stays.
pub proof fn law_escape_bytes(a: Seq<u8>, b: Seq<u8>, c: u8)
    ensures
        postlist::escaped(a + b) == postlist::escaped(a) + postlist::escaped(b),
        postlist::escaped(seq![c]) == (if c == 0 {
            seq![0u8, 0xffu8]
        } else {
            seq![c]
        }),
        postlist::escaped(Seq::<u8>::empty()) == Seq::<u8>::empty(),
    decreases b.len(),
{
    let one = seq![c];
    assert(one.drop_last() =~= Seq::<u8>::empty());
    assert(postlist::escaped(one.drop_last()) =~= Seq::<u8>::empty());
    assert(one.last() == c);
    assert(postlist::escaped(one) =~= (if c == 0 {
        seq![0u8, 0xffu8]
    } else {
        seq![c]
    }));
    if b.len() == 0 {
        assert(a + b =~= a);
        assert(postlist::escaped(a) + postlist::escaped(b) =~= postlist::escaped(a));
    } else {
        law_escape_bytes(a, b.drop_last(), c);
        assert((a + b).drop_last() =~= a + b.drop_last());
        assert((a + b).last() == b.last());
        assert(postlist::escaped(a + b) =~= postlist::escaped(a) + postlist::escaped(b));
    }
}

/// A term's list is stored under the escaped term, and that of the document lengths, the
/// list of the empty term, under the bytes 0x00 and 0xe0.
pub proof fn law_list_key(term: Seq<u8>)
    ensures
        term.len() > 0 ==> postlist::list_key(term) == postlist::escaped(term),
        term.len() == 0 ==> postlist::list_key(term) == seq![0x00u8, 0xe0u8],
{
}

/// The occurrence count that is kept differs from the stored one by a multiple of 2^32.
pub proof fn law_occurrences_kept(n: u64)
    ensures
        n < pow2(32) ==> postlist::wdf_of(n) == n,
        n >= pow2(32) ==> postlist::wdf_of(n) == postlist::wdf_of((n - pow2(32)) as u64),
{
    vstd::arithmetic::power2::lemma2_to64();
}

// Version header.

/// Data that does not start with the glass magic is refused for that.
pub proof fn law_magic_refused(data: Seq<u8>)
    requires
        data.len() < 16 || data.take(14) != seq![
            0x0fu8,
            0x0d,
            0x58,
            0x61,
            0x70,
            0x69,
            0x61,
            0x6e,
            0x20,
            0x47,
            0x6c,
            0x61,
            0x73,
            0x73,
        ],
    ensures
        version::version_at(data) == Err::<VersionSpec, Error>(Error::GlassMagic),
{
    if data.len() >= 16 {
        assert(data.subrange(0, 14) =~= data.take(14));
        assert(version::GLASS_MAGIC@ =~= seq![
            0x0fu8,
            0x0d,
            0x58,
            0x61,
            0x70,
            0x69,
            0x61,
            0x6e,
            0x20,
            0x47,
            0x6c,
            0x61,
            0x73,
            0x73,
        ]);
    }
}

/// Data that starts with the glass magic, but not in the one format that is supported, is
/// refused for that.
pub proof fn law_format_refused(data: Seq<u8>)
    requires
        data.len() >= 16,
        data.take(14) == seq![
            0x0fu8,
            0x0d,
            0x58,
            0x61,
            0x70,
            0x69,
            0x61,
            0x6e,
            0x20,
            0x47,
            0x6c,
            0x61,
            0x73,
            0x73,
        ],
        data[14] != 4 || data[15] != 110,
    ensures
        version::version_at(data) == Err::<VersionSpec, Error>(Error::GlassFormat),
{
    assert(data.subrange(0, 14) =~= data.take(14));
    assert(version::GLASS_MAGIC@ =~= data.take(14));
}

/// A header that is read says what its bytes say: the format, the sixteen bytes of the
/// identifier, the revision that stands behind them, and six tables.
pub proof fn law_version_read(data: Seq<u8>)
    ensures
        version::version_at(data) matches Ok(v) ==> {
            &&& v.format_version == 1134
            &&& v.uuid == data.subrange(16, 32)
            &&& varint::u64_at(data, 32) matches Some((rev, _)) && v.rev == rev
            &&& v.roots.len() == 6
            &&& v.last_docid >= v.doccount
            &&& v.doclen_ubound >= v.wdf_ubound
        },
{
    if version::version_at(data) is Ok {
        let (_, start) = varint::u64_at(data, 32).unwrap();
        lemma_roots_len(data, start, 6);
    }
}

proof fn lemma_roots_len(buf: Seq<u8>, pos: int, n: nat)
    ensures
        version::roots_at(buf, pos, n) matches Some((roots, _)) ==> roots.len() == n,
    decreases n,
{
    if n > 0 {
        lemma_roots_len(buf, pos, (n - 1) as nat);
    }
}

/// Root info read from five packed numbers and a packed freelist, for any five numbers: the
/// second holds the level above two flags, the block size comes in units of 2048 bytes, and
/// a threshold of 4 stands for 8. What does not fit in 32 bits is cut off at the top.
pub proof fn law_root_fields(before: Seq<u8>, v: Seq<u64>, freelist: Seq<u8>, behind: Seq<u8>)
    requires
        v.len() == 5,
        freelist.len() <= usize::MAX,
    ensures
        version::root_at(
            before + version_laws::packed_uints(v) + varint::packed_uint(freelist.len()) + freelist
                + behind,
            before.len() as int,
        ) matches Some((info, end)) && {
            &&& end == (before + version_laws::packed_uints(v) + varint::packed_uint(freelist.len())
                + freelist).len()
            &&& info.root == v[0]
            &&& v[1] < pow2(34) ==> v[1] == 4 * info.level + (if info.sequential {
                2int
            } else {
                0
            }) + (if info.root_is_fake {
                1int
            } else {
                0
            })
            &&& (v[1] - 4 * info.level - (if info.sequential {
                2int
            } else {
                0
            }) - (if info.root_is_fake {
                1int
            } else {
                0
            })) % pow2(34) as int == 0
            &&& info.num_entries == v[2]
            &&& v[3] < pow2(21) ==> info.blocksize == 2048 * v[3]
            &&& info.blocksize == (2048 * v[3]) % pow2(32) as int
            &&& info.compress_min == (if v[4] % pow2(32) as u64 == 4 {
                8
            } else {
                v[4] as int % pow2(32) as int
            })
            &&& info.fl_serialised_len == freelist.len()
        },
{
    vstd::arithmetic::power2::lemma2_to64();
    vstd::arithmetic::power2::lemma2_to64_rest();
    let len = varint::packed_uint(freelist.len());
    let all = before + version_laws::packed_uints(v) + len + freelist + behind;
    version_laws::law_uints_round_trip(before, v, len + freelist + behind);
    assert(all =~= before + version_laws::packed_uints(v) + (len + freelist + behind));
    law_string_round_trip(before + version_laws::packed_uints(v), freelist, behind, 0);
    let info = version::root_of(v, freelist);
    assert(version::root_at(all, before.len() as int) matches Some((i, _)) && i == info);
}

/// Fewer numbers than asked for cannot be read, but those that there are can.
pub proof fn lemma_uints_cut(before: Seq<u8>, v: Seq<u64>, n: nat)
    requires
        v.len() < n,
    ensures
        varint::u64s_at(before + version_laws::packed_uints(v), before.len() as int, n) is None,
        varint::u64s_read(before + version_laws::packed_uints(v), before.len() as int, n)
            == v.len(),
    decreases v.len(),
{
    let all = before + version_laws::packed_uints(v);
    if v.len() > 0 {
        let head = varint::packed_uint(v[0] as nat);
        let rest = version_laws::packed_uints(v.drop_first());
        varint::law_uint_round_trip(before, v[0] as nat, rest);
        assert(all =~= before + head + rest);
        lemma_uints_cut(before + head, v.drop_first(), (n - 1) as nat);
        assert(all =~= (before + head) + rest);
    } else {
        assert(all =~= before);
        assert(varint::uint_at(all, before.len() as int) is None);
    }
}

/// A header that ends inside its statistics is refused over the first that is missing.
pub proof fn law_stats_cut(v: VersionSpec, freelists: Seq<Seq<u8>>, k: int)
    requires
        version_laws::version_ok(v, freelists),
        0 <= k < 8,
    ensures
        version::version_at(
            version::GLASS_MAGIC@ + seq![4u8, 110u8] + v.uuid + varint::packed_uint(v.rev as nat)
                + version_laws::packed_roots(v.roots, freelists) + version_laws::packed_uints(
                version_laws::stored_stats(v).take(k),
            ),
        ) == Err::<VersionSpec, Error>(
            Error::BadStats(
                seq![
                    Stat::DocCount,
                    Stat::LastDocId,
                    Stat::DocLenLower,
                    Stat::WdfUpper,
                    Stat::DocLenUpper,
                    Stat::OldestChangeset,
                    Stat::TotalDocLen,
                    Stat::SpellingUpper,
                ][k],
            ),
        ),
{
    let head = version::GLASS_MAGIC@ + seq![4u8, 110u8] + v.uuid;
    let rev = varint::packed_uint(v.rev as nat);
    let roots = version_laws::packed_roots(v.roots, freelists);
    let kept = version_laws::stored_stats(v).take(k);
    let stats = version_laws::packed_uints(kept);
    let data = head + rev + roots + stats;
    assert(head.len() == 32);
    assert(data.subrange(0, 14) =~= version::GLASS_MAGIC@);
    assert(data[14] == 4 && data[15] == 110);
    varint::law_uint_round_trip(head, v.rev as nat, roots + stats);
    assert(data =~= head + rev + (roots + stats));
    version_laws::lemma_roots_round_trip(head + rev, v.roots, freelists, stats);
    lemma_uints_cut(head + rev + roots, kept, 8);
}

} // verus!
