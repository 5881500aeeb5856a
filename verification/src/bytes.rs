//! Fixed-width integers and byte-string order.

use vstd::prelude::*;

verus! {

/// The big-endian 16-bit integer at offset `i`.
pub open spec fn be16(s: Seq<u8>, i: int) -> int {
    s[i] * 256 + s[i + 1]
}

/// The big-endian 32-bit integer at offset `i`.
pub open spec fn be32(s: Seq<u8>, i: int) -> int {
    be16(s, i) * 65536 + be16(s, i + 2)
}

/// The little-endian 16-bit integer at offset `i`.
pub open spec fn le16(s: Seq<u8>, i: int) -> int {
    s[i] + s[i + 1] * 256
}

/// The little-endian 32-bit integer at offset `i`.
pub open spec fn le32(s: Seq<u8>, i: int) -> int {
    le16(s, i) + le16(s, i + 2) * 65536
}

/// The little-endian 64-bit integer at offset `i`.
pub open spec fn le64(s: Seq<u8>, i: int) -> int {
    le32(s, i) + le32(s, i + 4) * 0x1_0000_0000
}

/// Read a big-endian `u16` at offset `off`.
pub fn read_be16(b: &[u8], off: usize) -> (r: u16)
    requires
        off + 2 <= b.len(),
    ensures
        r == be16(b@, off as int),
{
    b[off] as u16 * 256 + b[off + 1] as u16
}

/// Read a big-endian `u32` at offset `off`.
pub fn read_be32(b: &[u8], off: usize) -> (r: u32)
    requires
        off + 4 <= b.len(),
    ensures
        r == be32(b@, off as int),
{
    read_be16(b, off) as u32 * 65536 + read_be16(b, off + 2) as u32
}

/// Read a little-endian `u16` at offset `off`.
pub fn rd_u16(b: &[u8], off: usize) -> (r: u16)
    requires
        off + 2 <= b.len(),
    ensures
        r == le16(b@, off as int),
{
    b[off] as u16 + b[off + 1] as u16 * 256
}

/// Read a little-endian `u32` at offset `off`.
pub fn rd_u32(b: &[u8], off: usize) -> (r: u32)
    requires
        off + 4 <= b.len(),
    ensures
        r == le32(b@, off as int),
{
    rd_u16(b, off) as u32 + rd_u16(b, off + 2) as u32 * 65536
}

/// Read a little-endian `u64` at offset `off`.
pub fn rd_u64(b: &[u8], off: usize) -> (r: u64)
    requires
        off + 8 <= b.len(),
    ensures
        r == le64(b@, off as int),
{
    rd_u32(b, off) as u64 + rd_u32(b, off + 4) as u64 * 0x1_0000_0000
}

/// Whether the tail of `a` from index `i` precedes the tail of `b` from index `i`
/// in byte order, a proper prefix coming before its extensions.
pub open spec fn lex_lt_from(a: Seq<u8>, b: Seq<u8>, i: int) -> bool
    decreases b.len() - i,
{
    if i >= b.len() {
        false
    } else if i >= a.len() {
        true
    } else if a[i] != b[i] {
        a[i] < b[i]
    } else {
        lex_lt_from(a, b, i + 1)
    }
}

/// Byte-string order: bytewise, a proper prefix coming before its extensions.
pub open spec fn lex_lt(a: Seq<u8>, b: Seq<u8>) -> bool {
    lex_lt_from(a, b, 0)
}

/// Compare two byte strings: negative, zero or positive as `a` precedes, equals
/// or follows `b`.
pub fn compare_bytes(a: &[u8], b: &[u8]) -> (r: i32)
    ensures
        r < 0 <==> lex_lt(a@, b@),
        r == 0 <==> a@ == b@,
        r > 0 <==> lex_lt(b@, a@),
        -1 <= r <= 1,
{
    let mut i: usize = 0;
    while i < a.len() && i < b.len()
        invariant
            i <= a@.len(),
            i <= b@.len(),
            forall|k: int| 0 <= k < i ==> a@[k] == b@[k],
            lex_lt(a@, b@) == lex_lt_from(a@, b@, i as int),
            lex_lt(b@, a@) == lex_lt_from(b@, a@, i as int),
        decreases a@.len() - i,
    {
        if a[i] < b[i] {
            return -1;
        }
        if a[i] > b[i] {
            return 1;
        }
        i += 1;
    }
    if i < b.len() {
        -1
    } else if i < a.len() {
        1
    } else {
        assert(a@ =~= b@);
        0
    }
}

proof fn lemma_lex_from_irreflexive(a: Seq<u8>, i: int)
    requires
        0 <= i,
    ensures
        !lex_lt_from(a, a, i),
    decreases a.len() - i,
{
    if i < a.len() {
        lemma_lex_from_irreflexive(a, i + 1);
    }
}

proof fn lemma_lex_from_transitive(a: Seq<u8>, b: Seq<u8>, c: Seq<u8>, i: int)
    requires
        0 <= i,
        lex_lt_from(a, b, i),
        lex_lt_from(b, c, i),
    ensures
        lex_lt_from(a, c, i),
    decreases c.len() - i,
{
    if i < a.len() && i < b.len() && i < c.len() && a[i] == b[i] && b[i] == c[i] {
        lemma_lex_from_transitive(a, b, c, i + 1);
    }
}

proof fn lemma_lex_from_total(a: Seq<u8>, b: Seq<u8>, i: int)
    requires
        0 <= i <= a.len(),
        i <= b.len(),
        forall|k: int| 0 <= k < i ==> a[k] == b[k],
        !lex_lt_from(a, b, i),
        !lex_lt_from(b, a, i),
    ensures
        a == b,
    decreases a.len() - i,
{
    if i < a.len() {
        lemma_lex_from_total(a, b, i + 1);
    } else {
        assert(a =~= b);
    }
}

proof fn lemma_lex_skip(a: Seq<u8>, b: Seq<u8>, i: int, k: int)
    requires
        0 <= i <= k <= a.len(),
        k <= b.len(),
        forall|x: int| 0 <= x < k ==> a[x] == b[x],
    ensures
        lex_lt_from(a, b, i) == lex_lt_from(a, b, k),
    decreases k - i,
{
    if i < k {
        lemma_lex_skip(a, b, i + 1, k);
    }
}

/// What decides between two byte strings is the first place where they differ.
pub proof fn lemma_lex_at(a: Seq<u8>, b: Seq<u8>, k: int)
    requires
        0 <= k <= a.len(),
        k < b.len(),
        forall|x: int| 0 <= x < k ==> a[x] == b[x],
        k == a.len() || a[k] < b[k],
    ensures
        lex_lt(a, b),
{
    lemma_lex_skip(a, b, 0, k);
}

proof fn lemma_lex_shift(p: Seq<u8>, a: Seq<u8>, b: Seq<u8>, i: int)
    requires
        0 <= i,
    ensures
        lex_lt_from(p + a, p + b, p.len() + i) == lex_lt_from(a, b, i),
    decreases b.len() - i,
{
    if i < b.len() && i < a.len() && a[i] == b[i] {
        lemma_lex_shift(p, a, b, i + 1);
    }
}

/// A common prefix does not change the order of two byte strings.
pub proof fn lemma_lex_prefix(p: Seq<u8>, a: Seq<u8>, b: Seq<u8>)
    ensures
        lex_lt(p + a, p + b) == lex_lt(a, b),
{
    lemma_lex_skip(p + a, p + b, 0, p.len() as int);
    lemma_lex_shift(p, a, b, 0);
}

/// No byte string precedes itself.
pub proof fn law_lex_irreflexive(a: Seq<u8>)
    ensures
        !lex_lt(a, a),
{
    lemma_lex_from_irreflexive(a, 0);
}

/// Byte-string order is transitive.
pub proof fn law_lex_transitive(a: Seq<u8>, b: Seq<u8>, c: Seq<u8>)
    requires
        lex_lt(a, b),
        lex_lt(b, c),
    ensures
        lex_lt(a, c),
{
    lemma_lex_from_transitive(a, b, c, 0);
}

/// Of two byte strings exactly one precedes the other, unless they are equal.
pub proof fn law_lex_total(a: Seq<u8>, b: Seq<u8>)
    ensures
        lex_lt(a, b) || lex_lt(b, a) || a == b,
        !(lex_lt(a, b) && lex_lt(b, a)),
{
    if !lex_lt(a, b) && !lex_lt(b, a) {
        lemma_lex_from_total(a, b, 0);
    }
    if lex_lt(a, b) && lex_lt(b, a) {
        law_lex_transitive(a, b, a);
        law_lex_irreflexive(a);
    }
}

/// The number that bytes spell, least significant first.
pub open spec fn le_value(s: Seq<u8>) -> nat
    decreases s.len(),
{
    if s.len() == 0 {
        0
    } else {
        s[0] as nat + 256 * le_value(s.drop_first())
    }
}

/// Little-endian integers are what their bytes spell, least significant first.
pub proof fn law_little_endian(s: Seq<u8>, i: int)
    requires
        0 <= i,
    ensures
        i + 2 <= s.len() ==> le16(s, i) == le_value(s.subrange(i, i + 2)),
        i + 4 <= s.len() ==> le32(s, i) == le_value(s.subrange(i, i + 4)),
        i + 8 <= s.len() ==> le64(s, i) == le_value(s.subrange(i, i + 8)),
{
    if i + 2 <= s.len() {
        lemma_le_split(s, i, 2);
        lemma_le_split(s, i + 1, 1);
        lemma_le_split(s, i + 2, 0);
    }
    if i + 4 <= s.len() {
        lemma_le_split(s, i, 4);
        lemma_le_split(s, i + 1, 3);
        lemma_le_split(s, i + 2, 2);
        lemma_le_split(s, i + 3, 1);
        lemma_le_split(s, i + 4, 0);
    }
    if i + 8 <= s.len() {
        lemma_le_split(s, i, 8);
        lemma_le_split(s, i + 1, 7);
        lemma_le_split(s, i + 2, 6);
        lemma_le_split(s, i + 3, 5);
        lemma_le_split(s, i + 4, 4);
        lemma_le_split(s, i + 5, 3);
        lemma_le_split(s, i + 6, 2);
        lemma_le_split(s, i + 7, 1);
        lemma_le_split(s, i + 8, 0);
    }
}

proof fn lemma_le_split(s: Seq<u8>, i: int, n: int)
    requires
        0 <= i,
        0 <= n,
        i + n <= s.len(),
    ensures
        n == 0 ==> le_value(s.subrange(i, i + n)) == 0,
        n > 0 ==> le_value(s.subrange(i, i + n)) == s[i] as nat + 256 * le_value(
            s.subrange(i + 1, i + 1 + (n - 1)),
        ),
{
    if n > 0 {
        assert(s.subrange(i, i + n).drop_first() =~= s.subrange(i + 1, i + 1 + (n - 1)));
    }
}

/// Big-endian integers have their most significant byte first.
pub proof fn law_big_endian(s: Seq<u8>, i: int)
    ensures
        be16(s, i) == 256 * s[i] + s[i + 1],
        be32(s, i) == 0x100_0000 * s[i] + 0x1_0000 * s[i + 1] + 0x100 * s[i + 2] + s[i + 3],
{
}

/// `k` is the place that decides that `a` precedes `b`: they agree before it, and there `a`
/// ends or has the smaller byte.
pub open spec fn decides(a: Seq<u8>, b: Seq<u8>, k: int) -> bool {
    &&& 0 <= k <= a.len()
    &&& k < b.len()
    &&& forall|x: int| 0 <= x < k ==> a[x] == b[x]
    &&& k == a.len() || a[k] < b[k]
}

proof fn lemma_decided(a: Seq<u8>, b: Seq<u8>, i: int) -> (k: int)
    requires
        0 <= i <= a.len(),
        i <= b.len(),
        forall|x: int| 0 <= x < i ==> a[x] == b[x],
        lex_lt_from(a, b, i),
    ensures
        decides(a, b, k),
    decreases b.len() - i,
{
    if i < a.len() && a[i] == b[i] {
        lemma_decided(a, b, i + 1)
    } else {
        i
    }
}

/// One byte string precedes another exactly where some place decides it.
pub proof fn law_lex_decided(a: Seq<u8>, b: Seq<u8>)
    ensures
        lex_lt(a, b) <==> exists|k: int| #[trigger] decides(a, b, k),
{
    if lex_lt(a, b) {
        let k = lemma_decided(a, b, 0);
        assert(decides(a, b, k));
    }
    if exists|k: int| #[trigger] decides(a, b, k) {
        let k = choose|k: int| #[trigger] decides(a, b, k);
        lemma_lex_at(a, b, k);
    }
}

} // verus!
