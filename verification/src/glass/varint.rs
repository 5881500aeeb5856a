//! LSB-first base-128 integers and length-prefixed strings.
//!
//! A packed integer is a run of bytes of which all but the last are 128 or more.
//! Each byte contributes its low seven bits, least significant group first.

use vstd::prelude::*;

verus! {

/// The number packed at offset `pos` and the offset just behind it, or `None`
/// where the buffer ends before the number does.
pub open spec fn uint_at(buf: Seq<u8>, pos: int) -> Option<(nat, int)>
    decreases buf.len() - pos,
{
    if pos < 0 || pos >= buf.len() {
        None
    } else if buf[pos] < 128 {
        Some((buf[pos] as nat, pos + 1))
    } else {
        match uint_at(buf, pos + 1) {
            Some((high, end)) => Some(((buf[pos] - 128 + 128 * high) as nat, end)),
            None => None,
        }
    }
}

/// The number packed at offset `pos`, where it is complete and fits in 64 bits,
/// and the offset just behind it.
pub open spec fn u64_at(buf: Seq<u8>, pos: int) -> Option<(u64, int)> {
    match uint_at(buf, pos) {
        Some((v, end)) => if v <= u64::MAX {
            Some((v as u64, end))
        } else {
            None
        },
        None => None,
    }
}

/// The offset that reading a number at `pos` leaves behind: just behind the number,
/// or the end of the buffer where the number is incomplete.
pub open spec fn uint_end(buf: Seq<u8>, pos: int) -> int {
    match uint_at(buf, pos) {
        Some((_, end)) => end,
        None => if pos < buf.len() {
            buf.len() as int
        } else {
            pos
        },
    }
}

/// The length-prefixed string at offset `pos` and the offset just behind it.
pub open spec fn string_at(buf: Seq<u8>, pos: int) -> Option<(Seq<u8>, int)> {
    match u64_at(buf, pos) {
        Some((n, start)) => if start + n <= buf.len() {
            Some((buf.subrange(start, start + n), start + n))
        } else {
            None
        },
        None => None,
    }
}

/// The `n` numbers packed one behind the other from offset `pos`, and the offset just
/// behind the last.
pub open spec fn u64s_at(buf: Seq<u8>, pos: int, n: nat) -> Option<(Seq<u64>, int)>
    decreases n,
{
    if n == 0 {
        Some((Seq::empty(), pos))
    } else {
        match u64_at(buf, pos) {
            Some((v, next)) => match u64s_at(buf, next, (n - 1) as nat) {
                Some((rest, end)) => Some((seq![v] + rest, end)),
                None => None,
            },
            None => None,
        }
    }
}

/// How many of `n` numbers packed one behind the other from offset `pos` can be read
/// before one cannot.
pub open spec fn u64s_read(buf: Seq<u8>, pos: int, n: nat) -> nat
    decreases n,
{
    if n == 0 {
        0
    } else {
        match u64_at(buf, pos) {
            Some((_, next)) => 1 + u64s_read(buf, next, (n - 1) as nat),
            None => 0,
        }
    }
}

/// The offset that reading `n` numbers from offset `pos` leaves behind, reading no
/// further than the first that cannot be read.
pub open spec fn u64s_end(buf: Seq<u8>, pos: int, n: nat) -> int
    decreases n,
{
    if n == 0 {
        pos
    } else {
        match u64_at(buf, pos) {
            Some((_, next)) => u64s_end(buf, next, (n - 1) as nat),
            None => uint_end(buf, pos),
        }
    }
}

/// A packed number ends inside the buffer and takes at least one byte.
pub proof fn lemma_uint_at_bounds(buf: Seq<u8>, pos: int)
    ensures
        uint_at(buf, pos) matches Some((_, end)) ==> pos < end <= buf.len(),
        0 <= pos ==> pos <= uint_end(buf, pos),
        0 <= pos <= buf.len() ==> uint_end(buf, pos) <= buf.len(),
    decreases buf.len() - pos,
{
    if 0 <= pos < buf.len() && buf[pos] >= 128 {
        lemma_uint_at_bounds(buf, pos + 1);
    }
}

/// The shortest packing of `n`.
pub open spec fn packed_uint(n: nat) -> Seq<u8>
    decreases n,
{
    if n < 128 {
        seq![n as u8]
    } else {
        seq![(128 + n % 128) as u8] + packed_uint(n / 128)
    }
}

/// A number read back from its packing, whatever stands before and behind it, is
/// the number that was packed, and exactly its packing is consumed.
pub proof fn law_uint_round_trip(before: Seq<u8>, n: nat, behind: Seq<u8>)
    ensures
        uint_at(before + packed_uint(n) + behind, before.len() as int) == Some(
            (n, (before.len() + packed_uint(n).len()) as int),
        ),
    decreases n,
{
    let all = before + packed_uint(n) + behind;
    if n < 128 {
        assert(all[before.len() as int] == n as u8);
    } else {
        let lead = (128 + n % 128) as u8;
        assert(all[before.len() as int] == lead);
        law_uint_round_trip(before.push(lead), n / 128, behind);
        assert(all =~= before.push(lead) + packed_uint(n / 128) + behind);
    }
}

/// Decode an LSB-first base-128 varint. Advances `*pos`. Returns None on overflow/EOD.
pub fn unpack_uint(buf: &[u8], pos: &mut usize) -> (r: Option<u64>)
    ensures
        r == (match u64_at(buf@, *old(pos) as int) {
            Some((v, _)) => Some(v),
            None => None,
        }),
        *final(pos) == uint_end(buf@, *old(pos) as int),
{
    let ghost start = *pos as int;
    let mut result: u64 = 0;
    // 128 to the power of the bytes read so far, while that fits.
    let mut scale: Option<u64> = Some(1);
    let mut overflow: bool = false;
    let ghost mut value: nat = 0;
    let ghost mut weight: nat = 1;
    loop
        invariant
            start == *old(pos),
            start <= *pos,
            start < buf.len() ==> *pos <= buf.len(),
            weight >= 1,
            scale matches Some(k) ==> k == weight,
            scale is None ==> weight > u64::MAX,
            overflow ==> value > u64::MAX,
            !overflow ==> result == value,
            uint_at(buf@, start) == (match uint_at(buf@, *pos as int) {
                Some((high, end)) => Some(((value + weight * high) as nat, end)),
                None => None,
            }),
            start >= buf.len() ==> *pos == start,
        decreases buf.len() - *pos,
    {
        if *pos >= buf.len() {
            return None;
        }
        let byte: u8 = buf[*pos];
        let ghost here = *pos as int;
        let digit: u64 = if byte < 128 {
            byte as u64
        } else {
            (byte - 128) as u64
        };
        let ghost old_value = value;
        let ghost old_weight = weight;
        match scale {
            Some(k) => {
                match digit.checked_mul(k) {
                    Some(term) => match result.checked_add(term) {
                        Some(sum) => {
                            result = sum;
                        },
                        None => {
                            overflow = true;
                        },
                    },
                    None => {
                        overflow = true;
                    },
                }
                scale = k.checked_mul(128);
            },
            None => {
                if digit != 0 {
                    overflow = true;
                }
            },
        }
        proof {
            value = old_value + old_weight * (digit as nat);
            weight = old_weight * 128;
            assert(old_weight * (digit as nat) >= 0) by (nonlinear_arith)
                requires
                    old_weight >= 1,
                    digit >= 0,
            ;
            if digit != 0 {
                assert(old_weight * (digit as nat) >= old_weight) by (nonlinear_arith)
                    requires
                        old_weight >= 1,
                        digit >= 1,
                ;
            } else {
                assert(old_weight * (digit as nat) == 0) by (nonlinear_arith)
                    requires
                        digit == 0,
                ;
            }
            assert(old_weight * (digit as nat) == (digit as nat) * old_weight) by (nonlinear_arith);
        }
        *pos += 1;
        if byte < 128 {
            return if overflow {
                None
            } else {
                Some(result)
            };
        }
        proof {
            match uint_at(buf@, here + 1) {
                Some((high, end)) => {
                    assert(old_value + old_weight * ((digit + 128 * high) as nat) == value + weight
                        * high) by (nonlinear_arith)
                        requires
                            value == old_value + old_weight * (digit as nat),
                            weight == old_weight * 128,
                    ;
                },
                None => {},
            }
        }
    }
}

/// Decode a length-prefixed string: a packed length, then that many bytes.
pub fn unpack_string<'a>(buf: &'a [u8], pos: &mut usize) -> (r: Option<&'a [u8]>)
    ensures
        match string_at(buf@, *old(pos) as int) {
            Some((s, end)) => r matches Some(bytes) && bytes@ == s && *final(pos) == end,
            None => r is None && *final(pos) == uint_end(buf@, *old(pos) as int),
        },
{
    proof {
        lemma_uint_at_bounds(buf@, *pos as int);
    }
    let len: u64 = match unpack_uint(buf, pos) {
        Some(len) => len,
        None => return None,
    };
    let start: usize = *pos;
    if len > (buf.len() - start) as u64 {
        return None;
    }
    let end: usize = start + len as usize;
    *pos = end;
    Some(&buf[start..end])
}

} // verus!
