//! The unsigned variable-length integer codec of the container: groups of
//! seven bits, least significant group first, the high bit of a byte telling
//! that another group follows.

use crate::error::DecodeError;
use vstd::prelude::*;

verus! {

/// The encoding of `v`.
pub open spec fn varint_bytes(v: u64) -> Seq<u8>
    decreases v,
{
    if v < 0x80 {
        seq![v as u8]
    } else {
        seq![(v % 0x80 + 0x80) as u8] + varint_bytes(v / 0x80)
    }
}

/// What the decoder finds in `s` from byte `pos` on, when `k` groups of the
/// same integer came before: the value of the remaining groups, each at its
/// place, and the position after the last of them.
///
/// Ten groups are read at most, and the tenth holds one bit: an encoding of
/// a value that does not fit 64 bits is an overflow.
pub open spec fn varint_at(s: Seq<u8>, pos: int, k: nat) -> Result<(u64, int), DecodeError>
    decreases 10 - k,
{
    if pos < 0 || pos >= s.len() {
        Err(DecodeError::VarintEof)
    } else {
        let group = ((s[pos] & 0x7F) as u64) << ((7 * k) as u64);
        if k >= 9 && s[pos] & 0x7F > 1 {
            Err(DecodeError::VarintOverflow)
        } else if s[pos] & 0x80 == 0 {
            Ok((group, pos + 1))
        } else if k >= 9 {
            Err(DecodeError::VarintOverflow)
        } else {
            match varint_at(s, pos + 1, k + 1) {
                Ok((rest, end)) => Ok((group | rest, end)),
                Err(e) => Err(e),
            }
        }
    }
}

/// The integer that starts at byte `pos` of `s`, with the position after it.
pub open spec fn varint_decode(s: Seq<u8>, pos: int) -> Result<(u64, int), DecodeError> {
    varint_at(s, pos, 0)
}

/// An encoding has between one and ten bytes.
pub proof fn lemma_varint_len(v: u64)
    ensures
        1 <= varint_bytes(v).len() <= 10,
{
    lemma_varint_len_bound(v, 10);
}

/// A value of at most `7 * n` bits has an encoding of at most `n` bytes.
proof fn lemma_varint_len_bound(v: u64, n: nat)
    requires
        1 <= n <= 10,
        n < 10 ==> v >> ((7 * n) as u64) == 0,
    ensures
        1 <= varint_bytes(v).len() <= n,
    decreases v,
{
    let sh = (7 * n) as u64;
    if v >= 0x80 {
        assert(n >= 2) by {
            if n < 2 {
                assert(v >> 7 == 0 ==> v < 0x80) by (bit_vector);
            }
        }
        let m = (n - 1) as nat;
        let shm = (7 * m) as u64;
        assert(m < 10 ==> (v / 0x80) >> shm == 0) by {
            if n < 10 {
                assert(sh == shm + 7);
                assert(v >> sh == 0 && sh == shm + 7 && shm <= 56 ==> (v / 0x80) >> shm == 0)
                    by (bit_vector);
            } else {
                assert(shm == 63 ==> (v / 0x80) >> shm == 0) by (bit_vector);
            }
        }
        lemma_varint_len_bound(v / 0x80, m);
    }
}

/// Appends the encoding of `val` to `buf`.
pub fn write_varint(buf: &mut Vec<u8>, val: u64)
    ensures
        final(buf)@ == old(buf)@ + varint_bytes(val),
{
    let mut val = val;
    let ghost whole = val;
    let ghost done = Seq::<u8>::empty();
    loop
        invariant_except_break
            buf@ == old(buf)@ + done,
            done + varint_bytes(val) == varint_bytes(whole),
        ensures
            buf@ == old(buf)@ + varint_bytes(whole),
        decreases val,
    {
        assert(val & 0x7F == val % 0x80 && val >> 7 == val / 0x80) by (bit_vector);
        let low: u8 = (val & 0x7F) as u8;
        let rest: u64 = val >> 7;
        if rest != 0 {
            let byte: u8 = low | 0x80;
            assert(low < 0x80 ==> low | 0x80 == low + 0x80) by (bit_vector);
            buf.push(byte);
            proof {
                assert(varint_bytes(val) == seq![byte] + varint_bytes(rest));
                assert(done.push(byte) + varint_bytes(rest) =~= done + varint_bytes(val));
                done = done.push(byte);
                assert(buf@ =~= old(buf)@ + done);
            }
            val = rest;
        } else {
            buf.push(low);
            proof {
                assert(varint_bytes(val) == seq![low]);
                assert(buf@ =~= old(buf)@ + (done + varint_bytes(val)));
            }
            break ;
        }
    }
}

/// The outcome of a read whose first `k` groups gave `val`.
pub open spec fn with_low_groups(val: u64, rest: Result<(u64, int), DecodeError>) -> Result<
    (u64, int),
    DecodeError,
> {
    match rest {
        Ok((high, end)) => Ok((val | high, end)),
        Err(e) => Err(e),
    }
}

/// Reads the integer that starts at `*pos` and moves `*pos` past it. An
/// encoding that ends behind the buffer, and one of a value that does not fit
/// 64 bits, are errors; on failure `*pos` stays where it was.
pub fn read_varint(buf: &[u8], pos: &mut usize) -> (r: Result<u64, DecodeError>)
    ensures
        match varint_decode(buf@, *old(pos) as int) {
            Ok((v, end)) => r == Ok::<u64, DecodeError>(v) && *final(pos) == end,
            Err(e) => r == Err::<u64, DecodeError>(e) && *final(pos) == *old(pos),
        },
{
    let mut cur: usize = *pos;
    let mut val: u64 = 0;
    let mut shift: u32 = 0;
    let ghost mut k: nat = 0;
    proof {
        assert(forall|x: u64| 0u64 | x == x) by (bit_vector);
    }
    loop
        invariant
            k <= 9,
            shift == 7 * k,
            cur == *old(pos) + k,
            *pos == *old(pos),
            varint_decode(buf@, *old(pos) as int) == with_low_groups(
                val,
                varint_at(buf@, cur as int, k),
            ),
        decreases 10 - k,
    {
        if cur >= buf.len() {
            return Err(DecodeError::VarintEof);
        }
        let byte: u8 = buf[cur];
        if shift == 63 && (byte & 0x7F) > 1 {
            return Err(DecodeError::VarintOverflow);
        }
        let group: u64 = ((byte & 0x7F) as u64) << shift;
        proof {
            assert(forall|a: u64, b: u64, c: u64| (a | b) | c == a | (b | c)) by (bit_vector);
        }
        val = val | group;
        cur = cur + 1;
        if (byte & 0x80) == 0 {
            *pos = cur;
            return Ok(val);
        }
        shift = shift + 7;
        if shift >= 64 {
            return Err(DecodeError::VarintOverflow);
        }
        proof {
            k = k + 1;
        }
    }
}

/// One step of the round trip: the low group of `v` at its place, joined to
/// the higher groups at theirs, is `v` at its place.
proof fn lemma_group_step(v: u64, sh: u64)
    requires
        sh <= 63,
        (v << sh) >> sh == v,
        v >= 0x80,
    ensures
        sh <= 56,
        ((((v % 0x80 + 0x80) as u8) & 0x7F) as u64) << sh | ((v / 0x80) << ((sh + 7) as u64)) == v
            << sh,
        ((v / 0x80) << ((sh + 7) as u64)) >> ((sh + 7) as u64) == v / 0x80,
        ((v % 0x80 + 0x80) as u8) & 0x80 != 0,
{
    assert(sh <= 63 && (v << sh) >> sh == v && v >= 0x80 ==> sh <= 56) by (bit_vector);
    let s7 = (sh + 7) as u64;
    assert(sh <= 56 && s7 == sh + 7 && (v << sh) >> sh == v ==> {
        &&& ((((v % 0x80 + 0x80) as u8) & 0x7F) as u64) << sh | ((v / 0x80) << s7) == v << sh
        &&& ((v / 0x80) << s7) >> s7 == v / 0x80
        &&& ((v % 0x80 + 0x80) as u8) & 0x80 != 0
    }) by (bit_vector);
}

/// The round trip with `k` groups already read.
proof fn lemma_varint_at_bytes(s: Seq<u8>, pos: int, v: u64, k: nat)
    requires
        0 <= pos,
        pos + varint_bytes(v).len() <= s.len(),
        s.subrange(pos, pos + varint_bytes(v).len()) == varint_bytes(v),
        k <= 9,
        (v << ((7 * k) as u64)) >> ((7 * k) as u64) == v,
    ensures
        varint_at(s, pos, k) == Ok::<(u64, int), DecodeError>(
            (v << ((7 * k) as u64), pos + varint_bytes(v).len()),
        ),
    decreases v,
{
    let sh = (7 * k) as u64;
    let enc = varint_bytes(v);
    assert(s[pos] == s.subrange(pos, pos + enc.len())[0]);
    if v < 0x80 {
        assert(v < 0x80 ==> (((v as u8) & 0x7F) as u64) << sh == v << sh && (v as u8) & 0x80 == 0)
            by (bit_vector);
        assert(v < 0x80 && sh == 63 && (v << sh) >> sh == v ==> (v as u8) & 0x7F <= 1)
            by (bit_vector);
    } else {
        lemma_group_step(v, sh);
        let rest = v / 0x80;
        let tail = varint_bytes(rest);
        assert(enc == seq![(v % 0x80 + 0x80) as u8] + tail);
        assert(s.subrange(pos + 1, pos + 1 + tail.len()) =~= tail) by {
            assert forall|i: int| 0 <= i < tail.len() implies s[pos + 1 + i] == tail[i] by {
                assert(s[pos + 1 + i] == s.subrange(pos, pos + enc.len())[1 + i]);
            }
        }
        lemma_varint_at_bytes(s, pos + 1, rest, k + 1);
    }
}

/// Decoding an encoding gives the value back, wherever the encoding stands
/// in a buffer, and stops right behind it.
pub proof fn lemma_varint_round_trip(v: u64, before: Seq<u8>, after: Seq<u8>)
    ensures
        varint_decode(before + varint_bytes(v) + after, before.len() as int) == Ok::<
            (u64, int),
            DecodeError,
        >((v, (before.len() + varint_bytes(v).len()) as int)),
{
    let s = before + varint_bytes(v) + after;
    assert(s.subrange(before.len() as int, (before.len() + varint_bytes(v).len()) as int)
        =~= varint_bytes(v));
    assert((v << 0u64) >> 0u64 == v && v << 0u64 == v) by (bit_vector);
    lemma_varint_at_bytes(s, before.len() as int, v, 0);
}

/// A varint that is read ends behind its first byte and within the buffer.
pub proof fn lemma_varint_advances(s: Seq<u8>, pos: int)
    ensures
        match varint_decode(s, pos) {
            Ok((v, end)) => 0 <= pos < end <= s.len(),
            Err(e) => e == DecodeError::VarintEof || e == DecodeError::VarintOverflow,
        },
{
    lemma_varint_at_advances(s, pos, 0);
}

/// As `lemma_varint_advances`, with `k` groups already read.
proof fn lemma_varint_at_advances(s: Seq<u8>, pos: int, k: nat)
    ensures
        match varint_at(s, pos, k) {
            Ok((v, end)) => 0 <= pos < end <= s.len(),
            Err(e) => e == DecodeError::VarintEof || e == DecodeError::VarintOverflow,
        },
    decreases 10 - k,
{
    if 0 <= pos < s.len() && k < 9 {
        lemma_varint_at_advances(s, pos + 1, k + 1);
    }
}

} // verus!
