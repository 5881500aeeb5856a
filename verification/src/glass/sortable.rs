//! The sort-preserving integer encoding of table keys.
//!
//! Numbers below 0x8000 take two big-endian bytes. Larger numbers start with a byte
//! whose leading one bits count the bytes that follow it (two to eight); the low bits
//! of that byte and the bytes behind it are the number, big-endian.

use crate::bytes;
use vstd::prelude::*;

verus! {

/// The number that `s` spells in big-endian base 256.
pub open spec fn be_value(s: Seq<u8>) -> nat
    decreases s.len(),
{
    if s.len() == 0 {
        0
    } else {
        be_value(s.drop_last()) * 256 + s.last() as nat
    }
}

/// The low `n` bytes of `v`, big-endian.
pub open spec fn be_bytes(v: nat, n: nat) -> Seq<u8>
    decreases n,
{
    if n == 0 {
        Seq::empty()
    } else {
        be_bytes(v / 256, (n - 1) as nat).push((v % 256) as u8)
    }
}

/// 256 to the power of `n`.
pub open spec fn pow256(n: nat) -> nat
    decreases n,
{
    if n == 0 {
        1
    } else {
        256 * pow256((n - 1) as nat)
    }
}

/// How many bytes follow a leading byte of 0x80 to 0xfe.
pub open spec fn tail_len(lead: u8) -> nat {
    if lead < 0xc0 {
        2
    } else if lead < 0xe0 {
        3
    } else if lead < 0xf0 {
        4
    } else if lead < 0xf8 {
        5
    } else if lead < 0xfc {
        6
    } else if lead < 0xfe {
        7
    } else {
        8
    }
}

/// The smallest leading byte that announces `n` bytes.
pub open spec fn lead_base(n: nat) -> nat {
    if n <= 2 {
        0x80
    } else if n == 3 {
        0xc0
    } else if n == 4 {
        0xe0
    } else if n == 5 {
        0xf0
    } else if n == 6 {
        0xf8
    } else if n == 7 {
        0xfc
    } else {
        0xfe
    }
}

/// How many bytes follow the leading byte in the encoding of `v`, for `v` of 0x8000
/// or more.
pub open spec fn tail_len_for(v: u64) -> nat {
    if v < 0x40_0000 {
        2
    } else if v < 0x2000_0000 {
        3
    } else if v < 0x10_0000_0000 {
        4
    } else if v < 0x800_0000_0000 {
        5
    } else if v < 0x4_0000_0000_0000 {
        6
    } else if v < 0x200_0000_0000_0000 {
        7
    } else {
        8
    }
}

/// The encoding of `v`.
pub open spec fn sortable(v: u64) -> Seq<u8> {
    if v < 0x8000 {
        be_bytes(v as nat, 2)
    } else {
        let n = tail_len_for(v);
        seq![(lead_base(n) + v as nat / pow256(n)) as u8] + be_bytes(v as nat, n)
    }
}

/// The number encoded at offset `pos` and the offset just behind it, or `None` where
/// the leading byte is 0xff or the buffer is too short.
pub open spec fn sortable_at(buf: Seq<u8>, pos: int) -> Option<(nat, int)> {
    if pos < 0 || pos >= buf.len() || buf[pos] == 0xff {
        None
    } else if buf[pos] < 0x80 {
        if pos + 2 <= buf.len() {
            Some((be_value(buf.subrange(pos, pos + 2)), pos + 2))
        } else {
            None
        }
    } else {
        let n = tail_len(buf[pos]);
        let end = pos + 1 + n;
        if end <= buf.len() {
            let head = (buf[pos] - lead_base(n)) as nat;
            Some((head * pow256(n) + be_value(buf.subrange(pos + 1, end)), end))
        } else {
            None
        }
    }
}

/// The offset that reading a number at `pos` leaves behind: just behind the number,
/// or behind what was read of it where it cannot be decoded.
pub open spec fn sortable_end(buf: Seq<u8>, pos: int) -> int {
    match sortable_at(buf, pos) {
        Some((_, end)) => end,
        None => if pos >= buf.len() {
            pos
        } else if buf[pos] == 0xff {
            pos + 1
        } else {
            buf.len() as int
        },
    }
}

proof fn lemma_be_value_bound(s: Seq<u8>)
    ensures
        be_value(s) < pow256(s.len()),
    decreases s.len(),
{
    if s.len() > 0 {
        lemma_be_value_bound(s.drop_last());
    }
}

/// The powers of 256 that occur in encodings.
proof fn lemma_pow256_values()
    ensures
        pow256(0) == 1,
        pow256(1) == 0x100,
        pow256(2) == 0x1_0000,
        pow256(3) == 0x100_0000,
        pow256(4) == 0x1_0000_0000,
        pow256(5) == 0x100_0000_0000,
        pow256(6) == 0x1_0000_0000_0000,
        pow256(7) == 0x100_0000_0000_0000,
        pow256(8) == 0x1_0000_0000_0000_0000,
{
    reveal_with_fuel(pow256, 9);
}

/// Whatever follows a leading byte, the number fits in 64 bits.
proof fn lemma_head_fits(lead: u8)
    requires
        0x80 <= lead < 0xff,
    ensures
        ({
            let n = tail_len(lead);
            (lead - lead_base(n)) * pow256(n) + pow256(n) <= 0x1_0000_0000_0000_0000
        }),
{
    lemma_pow256_values();
    let n = tail_len(lead);
    let p = pow256(n);
    let head = lead - lead_base(n);
    if n == 2 {
        assert(head * p == head * 0x1_0000);
    } else if n == 3 {
        assert(head * p == head * 0x100_0000);
    } else if n == 4 {
        assert(head * p == head * 0x1_0000_0000);
    } else if n == 5 {
        assert(head * p == head * 0x100_0000_0000);
    } else if n == 6 {
        assert(head * p == head * 0x1_0000_0000_0000);
    } else if n == 7 {
        assert(head * p == head * 0x100_0000_0000_0000);
    } else {
        assert(head == 0);
    }
}

/// Decode a "sort preserving" unsigned integer.
pub fn unpack_sortable(buf: &[u8], pos: &mut usize) -> (r: Option<u64>)
    ensures
        match sortable_at(buf@, *old(pos) as int) {
            Some((v, _)) => r == Some(v as u64) && v <= u64::MAX,
            None => r is None,
        },
        *final(pos) == sortable_end(buf@, *old(pos) as int),
{
    if *pos >= buf.len() {
        return None;
    }
    let ghost at = *pos as int;
    let lead: u8 = buf[*pos];
    *pos += 1;
    if lead < 0x80 {
        if *pos >= buf.len() {
            return None;
        }
        let low: u8 = buf[*pos];
        *pos += 1;
        proof {
            let s = buf@.subrange(at, at + 2);
            assert(s.drop_last() =~= seq![lead]);
            reveal_with_fuel(be_value, 3);
        }
        return Some(lead as u64 * 256 + low as u64);
    }
    if lead == 0xff {
        return None;
    }
    let (len, base): (usize, u8) = if lead < 0xc0 {
        (2, 0x80)
    } else if lead < 0xe0 {
        (3, 0xc0)
    } else if lead < 0xf0 {
        (4, 0xe0)
    } else if lead < 0xf8 {
        (5, 0xf0)
    } else if lead < 0xfc {
        (6, 0xf8)
    } else if lead < 0xfe {
        (7, 0xfc)
    } else {
        (8, 0xfe)
    };
    let head: u8 = lead - base;
    let mut r: u64 = head as u64;
    let mut i: usize = 0;
    proof {
        lemma_head_fits(lead);
        lemma_pow256_values();
        assert(buf@.subrange(at + 1, at + 1) =~= Seq::empty());
        assert(head * pow256(0) == head);
    }
    while i < len
        invariant
            0 <= i <= len <= 8,
            0 <= at < buf@.len(),
            *pos == at + 1 + i,
            at == *old(pos),
            *pos <= buf.len(),
            buf@[at] == lead,
            0x80 <= lead < 0xff,
            len == tail_len(lead),
            base == lead_base(len as nat),
            head == lead - base,
            head * pow256(len as nat) + pow256(len as nat) <= 0x1_0000_0000_0000_0000,
            r == head * pow256(i as nat) + be_value(buf@.subrange(at + 1, at + 1 + i)),
        decreases len - i,
    {
        if *pos >= buf.len() {
            return None;
        }
        proof {
            let s = buf@.subrange(at + 1, at + 2 + i);
            assert(s.drop_last() =~= buf@.subrange(at + 1, at + 1 + i));
            lemma_be_value_bound(s);
            lemma_pow256_grows((i + 1) as nat, len as nat);
            assert(head * pow256((i + 1) as nat) == 256 * (head * pow256(i as nat))) by (nonlinear_arith)
                requires
                    pow256((i + 1) as nat) == 256 * pow256(i as nat),
            ;
            assert(head * pow256((i + 1) as nat) <= head * pow256(len as nat)) by (nonlinear_arith)
                requires
                    head >= 0,
                    pow256((i + 1) as nat) <= pow256(len as nat),
            ;
        }
        r = r * 256 + buf[*pos] as u64;
        *pos += 1;
        i += 1;
    }
    Some(r)
}

proof fn lemma_pow256_grows(i: nat, n: nat)
    requires
        i <= n,
    ensures
        1 <= pow256(i) <= pow256(n),
    decreases n,
{
    if i < n {
        lemma_pow256_grows(i, (n - 1) as nat);
    } else if i > 0 {
        lemma_pow256_grows((i - 1) as nat, (n - 1) as nat);
    }
}

/// Append the low `n` bytes of `v`, big-endian.
fn push_be(v: u64, n: usize, out: &mut Vec<u8>)
    ensures
        final(out)@ == old(out)@ + be_bytes(v as nat, n as nat),
    decreases n,
{
    if n > 0 {
        push_be(v / 256, n - 1, out);
        out.push((v % 256) as u8);
    }
}

/// Encode a "sort preserving" unsigned integer.
pub fn pack_sortable(value: u64) -> (r: Vec<u8>)
    ensures
        r@ == sortable(value),
{
    let mut out: Vec<u8> = Vec::new();
    if value < 0x8000 {
        push_be(value, 2, &mut out);
        return out;
    }
    let (len, head): (usize, u64) = if value < 0x40_0000 {
        (2, 0x80 + value / 0x1_0000)
    } else if value < 0x2000_0000 {
        (3, 0xc0 + value / 0x100_0000)
    } else if value < 0x10_0000_0000 {
        (4, 0xe0 + value / 0x1_0000_0000)
    } else if value < 0x800_0000_0000 {
        (5, 0xf0 + value / 0x100_0000_0000)
    } else if value < 0x4_0000_0000_0000 {
        (6, 0xf8 + value / 0x1_0000_0000_0000)
    } else if value < 0x200_0000_0000_0000 {
        (7, 0xfc + value / 0x100_0000_0000_0000)
    } else {
        (8, 0xfe)
    };
    proof {
        lemma_lead_quotient(value);
    }
    out.push(head as u8);
    push_be(value, len, &mut out);
    assert(out@ =~= sortable(value));
    out
}

proof fn lemma_be_bytes_len(v: nat, n: nat)
    ensures
        be_bytes(v, n).len() == n,
    decreases n,
{
    if n > 0 {
        lemma_be_bytes_len(v / 256, (n - 1) as nat);
    }
}

/// An encoding takes two to nine bytes.
pub proof fn lemma_sortable_len(v: u64)
    ensures
        2 <= sortable(v).len() <= 9,
{
    if v < 0x8000 {
        lemma_be_bytes_len(v as nat, 2);
    } else {
        lemma_be_bytes_len(v as nat, tail_len_for(v));
    }
}

/// Splitting the last byte off a remainder.
proof fn lemma_mod_pow256(v: nat, n: nat)
    requires
        n > 0,
    ensures
        v as int % pow256(n) as int == 256 * ((v as int / 256) % pow256((n - 1) as nat) as int) + v as int
            % 256,
{
    lemma_pow256_grows((n - 1) as nat, (n - 1) as nat);
    vstd::arithmetic::div_mod::lemma_mod_breakdown(v as int, 256, pow256((n - 1) as nat) as int);
}

proof fn lemma_be_round_trip(v: nat, n: nat)
    ensures
        be_value(be_bytes(v, n)) == v % pow256(n),
    decreases n,
{
    if n > 0 {
        let s = be_bytes(v / 256, (n - 1) as nat);
        lemma_be_round_trip(v / 256, (n - 1) as nat);
        lemma_mod_pow256(v, n);
        assert(be_bytes(v, n).drop_last() =~= s);
    }
}

/// The part of `v` that its leading byte carries, with the divisor written out.
proof fn lemma_lead_quotient(v: u64)
    ensures
        ({
            let q = v as nat / pow256(tail_len_for(v));
            if v < 0x40_0000 {
                q == v / 0x1_0000
            } else if v < 0x2000_0000 {
                q == v / 0x100_0000
            } else if v < 0x10_0000_0000 {
                q == v / 0x1_0000_0000
            } else if v < 0x800_0000_0000 {
                q == v / 0x100_0000_0000
            } else if v < 0x4_0000_0000_0000 {
                q == v / 0x1_0000_0000_0000
            } else if v < 0x200_0000_0000_0000 {
                q == v / 0x100_0000_0000_0000
            } else {
                q == 0
            }
        }),
{
    lemma_pow256_values();
    if v >= 0x200_0000_0000_0000 {
        assert(v as nat / 0x1_0000_0000_0000_0000nat == 0);
    }
}

/// The leading byte of a long encoding announces the length that was chosen for the
/// number, and carries what the bytes behind it leave out.
proof fn lemma_lead(v: u64)
    requires
        v >= 0x8000,
    ensures
        ({
            let n = tail_len_for(v);
            let lead = lead_base(n) + v as nat / pow256(n);
            &&& 0x80 <= lead < 0xff
            &&& tail_len(lead as u8) == n
            &&& sortable(v) == seq![lead as u8] + be_bytes(v as nat, n)
        }),
{
    lemma_lead_quotient(v);
}

/// A number read back from its encoding, whatever stands before and behind it, is the
/// number that was encoded, and exactly its encoding is consumed.
pub proof fn law_sortable_round_trip(before: Seq<u8>, v: u64, behind: Seq<u8>)
    ensures
        sortable_at(before + sortable(v) + behind, before.len() as int) == Some(
            (v as nat, (before.len() + sortable(v).len()) as int),
        ),
{
    let all = before + sortable(v) + behind;
    let at = before.len() as int;
    lemma_pow256_values();
    if v < 0x8000 {
        lemma_be_bytes_len(v as nat, 2);
        lemma_be_round_trip(v as nat, 2);
        assert(all.subrange(at, at + 2) =~= be_bytes(v as nat, 2));
        assert(all[at] == sortable(v)[0]);
        assert(sortable(v)[0] == (v / 256) as u8) by {
            reveal_with_fuel(be_bytes, 3);
        }
    } else {
        let n = tail_len_for(v);
        let p = pow256(n) as int;
        let tail = be_bytes(v as nat, n);
        lemma_lead(v);
        lemma_be_bytes_len(v as nat, n);
        lemma_be_round_trip(v as nat, n);
        assert(all[at] == sortable(v)[0]);
        assert(all.subrange(at + 1, at + 1 + n) =~= tail);
        vstd::arithmetic::div_mod::lemma_fundamental_div_mod(v as int, p);
        assert((v as int / p) * p == p * (v as int / p)) by (nonlinear_arith);
    }
}

proof fn lemma_lex_push(a: Seq<u8>, b: Seq<u8>, x: u8, y: u8, i: int)
    requires
        a.len() == b.len(),
        0 <= i <= a.len(),
        bytes::lex_lt_from(a, b, i) || ((forall|k: int| i <= k < a.len() ==> a[k] == b[k]) && x
            < y),
    ensures
        bytes::lex_lt_from(a.push(x), b.push(y), i),
    decreases a.len() - i,
{
    if i < a.len() && a[i] == b[i] {
        lemma_lex_push(a, b, x, y, i + 1);
    }
}

proof fn lemma_lex_cons(a: Seq<u8>, b: Seq<u8>, x: u8, i: int)
    requires
        0 <= i,
        bytes::lex_lt_from(a, b, i),
    ensures
        bytes::lex_lt_from(seq![x] + a, seq![x] + b, i + 1),
    decreases b.len() - i,
{
    if i < a.len() && i < b.len() && a[i] == b[i] {
        lemma_lex_cons(a, b, x, i + 1);
    }
}

proof fn lemma_base256(x: int, a: int, y: int, b: int)
    requires
        0 <= a < 256,
        0 <= b < 256,
    ensures
        256 * x + a == 256 * y + b ==> x == y && a == b,
        256 * x + a < 256 * y + b ==> x < y || (x == y && a < b),
{
}

/// Among byte strings of one length, big-endian order is numeric order.
proof fn lemma_be_order(v: nat, w: nat, n: nat)
    requires
        v % pow256(n) < w % pow256(n),
    ensures
        bytes::lex_lt(be_bytes(v, n), be_bytes(w, n)),
    decreases n,
{
    if n > 0 {
        let m = (n - 1) as nat;
        lemma_mod_pow256(v, n);
        lemma_mod_pow256(w, n);
        lemma_be_bytes_len(v / 256, m);
        lemma_be_bytes_len(w / 256, m);
        let a = be_bytes(v / 256, m);
        let b = be_bytes(w / 256, m);
        lemma_base256(
            (v as int / 256) % pow256(m) as int,
            v as int % 256,
            (w as int / 256) % pow256(m) as int,
            w as int % 256,
        );
        if (v / 256) % pow256(m) < (w / 256) % pow256(m) {
            lemma_be_order(v / 256, w / 256, m);
        } else {
            lemma_be_bytes_mod(v / 256, w / 256, m);
        }
        lemma_lex_push(a, b, (v % 256) as u8, (w % 256) as u8, 0);
    }
}

/// The low bytes depend on the remainder alone.
proof fn lemma_be_bytes_mod(v: nat, w: nat, n: nat)
    requires
        v % pow256(n) == w % pow256(n),
    ensures
        be_bytes(v, n) == be_bytes(w, n),
    decreases n,
{
    if n > 0 {
        lemma_mod_pow256(v, n);
        lemma_mod_pow256(w, n);
        let x = (v as int / 256) % pow256((n - 1) as nat) as int;
        let y = (w as int / 256) % pow256((n - 1) as nat) as int;
        lemma_base256(x, v as int % 256, y, w as int % 256);
        lemma_be_bytes_mod(v / 256, w / 256, (n - 1) as nat);
    }
}

/// The encoding preserves order: the smaller number has the smaller encoding.
pub proof fn law_sortable_preserves_order(v: u64, w: u64)
    requires
        v < w,
    ensures
        bytes::lex_lt(sortable(v), sortable(w)),
{
    lemma_pow256_values();
    lemma_be_bytes_len(v as nat, 2);
    assert(v < 0x8000 ==> sortable(v)[0] == (v / 256) as u8) by {
        reveal_with_fuel(be_bytes, 3);
    }
    if w < 0x8000 {
        assert(v as nat % 0x1_0000 == v && w as nat % 0x1_0000 == w);
        lemma_be_order(v as nat, w as nat, 2);
    } else if v < 0x8000 {
        lemma_lead(w);
        assert(sortable(v)[0] < sortable(w)[0]);
    } else {
        lemma_lead(v);
        lemma_lead(w);
        lemma_lead_quotient(v);
        lemma_lead_quotient(w);
        let n = tail_len_for(v);
        let m = tail_len_for(w);
        if n == m && sortable(v)[0] == sortable(w)[0] {
            let p = pow256(n) as int;
            vstd::arithmetic::div_mod::lemma_fundamental_div_mod(v as int, p);
            vstd::arithmetic::div_mod::lemma_fundamental_div_mod(w as int, p);
            lemma_be_order(v as nat, w as nat, n);
            lemma_lex_cons(
                be_bytes(v as nat, n),
                be_bytes(w as nat, n),
                sortable(v)[0],
                0,
            );
        } else {
            assert(sortable(v)[0] < sortable(w)[0]);
        }
    }
}

} // verus!
