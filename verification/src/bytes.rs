//! Fixed-width integers inside byte buffers: the mathematical meaning of a
//! little- or big-endian field, and executable loads and stores that are
//! proved against it.

use byteorder::{ByteOrder, LittleEndian};
use vstd::prelude::*;

verus! {

/// The 32-bit value whose little-endian encoding is the first four bytes of `s`.
#[verifier::opaque]
pub open spec fn le_u32(s: Seq<u8>) -> u32 {
    (s[0] as int + s[1] as int * 0x100 + s[2] as int * 0x1_0000 + s[3] as int * 0x100_0000) as u32
}

/// The 64-bit value whose little-endian encoding is the first eight bytes of `s`.
#[verifier::opaque]
pub open spec fn le_u64(s: Seq<u8>) -> u64 {
    (le_u32(s) as int + le_u32(s.subrange(4, 8)) as int * 0x1_0000_0000) as u64
}

/// The 32-bit value whose big-endian encoding is the first four bytes of `s`.
#[verifier::opaque]
pub open spec fn be_u32(s: Seq<u8>) -> u32 {
    (s[3] as int + s[2] as int * 0x100 + s[1] as int * 0x1_0000 + s[0] as int * 0x100_0000) as u32
}

/// The four bytes that encode `v`, least significant first.
#[verifier::opaque]
pub open spec fn u32_le_bytes(v: u32) -> Seq<u8> {
    seq![
        (v % 0x100) as u8,
        (v / 0x100 % 0x100) as u8,
        (v / 0x1_0000 % 0x100) as u8,
        (v / 0x100_0000) as u8,
    ]
}

/// The eight bytes that encode `v`, least significant first.
#[verifier::opaque]
pub open spec fn u64_le_bytes(v: u64) -> Seq<u8> {
    u32_le_bytes((v % 0x1_0000_0000) as u32) + u32_le_bytes((v / 0x1_0000_0000) as u32)
}

/// The four bytes that encode `v`, most significant first.
#[verifier::opaque]
pub open spec fn u32_be_bytes(v: u32) -> Seq<u8> {
    seq![
        (v / 0x100_0000) as u8,
        (v / 0x1_0000 % 0x100) as u8,
        (v / 0x100 % 0x100) as u8,
        (v % 0x100) as u8,
    ]
}

/// `s` with the bytes from position `p` on replaced by `b`; the length of `s`
/// is kept.
pub open spec fn overwrite(s: Seq<u8>, p: int, b: Seq<u8>) -> Seq<u8> {
    Seq::new(s.len(), |i: int| if p <= i < p + b.len() { b[i - p] } else { s[i] })
}

/// The little-endian 32-bit field of `s` that starts at byte `p`.
pub open spec fn u32_at(s: Seq<u8>, p: int) -> u32 {
    le_u32(s.subrange(p, p + 4))
}

/// The little-endian 64-bit field of `s` that starts at byte `p`.
pub open spec fn u64_at(s: Seq<u8>, p: int) -> u64 {
    le_u64(s.subrange(p, p + 8))
}

/// The big-endian 32-bit field of `s` that starts at byte `p`.
pub open spec fn u32_be_at(s: Seq<u8>, p: int) -> u32 {
    be_u32(s.subrange(p, p + 4))
}

/// Four base-256 digits are recovered from the number they spell.
proof fn lemma_digits(a: int, b: int, c: int, d: int)
    requires
        0 <= a < 0x100,
        0 <= b < 0x100,
        0 <= c < 0x100,
        0 <= d < 0x100,
    ensures
        ({
            let v = a + b * 0x100 + c * 0x1_0000 + d * 0x100_0000;
            &&& 0 <= v < 0x1_0000_0000
            &&& v % 0x100 == a
            &&& v / 0x100 % 0x100 == b
            &&& v / 0x1_0000 % 0x100 == c
            &&& v / 0x100_0000 == d
        }),
{
    let v = a + b * 0x100 + c * 0x1_0000 + d * 0x100_0000;
    let v1 = b + c * 0x100 + d * 0x1_0000;
    let v2 = c + d * 0x100;
    assert(v == v1 * 0x100 + a);
    assert(v / 0x100 == v1 && v % 0x100 == a);
    assert(v1 == v2 * 0x100 + b);
    assert(v1 / 0x100 == v2 && v1 % 0x100 == b);
    assert(v / 0x1_0000 == v2);
    assert(v2 / 0x100 == d && v2 % 0x100 == c);
    assert(v / 0x100_0000 == d);
}

/// A number below 2^32 is spelled by its four base-256 digits.
proof fn lemma_spell(v: int)
    requires
        0 <= v < 0x1_0000_0000,
    ensures
        v == v % 0x100 + (v / 0x100 % 0x100) * 0x100 + (v / 0x1_0000 % 0x100) * 0x1_0000 + (v
            / 0x100_0000) * 0x100_0000,
        0 <= v / 0x100_0000 < 0x100,
{
    let v1 = v / 0x100;
    let v2 = v1 / 0x100;
    let v3 = v2 / 0x100;
    assert(v == v1 * 0x100 + v % 0x100);
    assert(v1 == v2 * 0x100 + v1 % 0x100);
    assert(v2 == v3 * 0x100 + v2 % 0x100);
    assert(v2 == v / 0x1_0000);
    assert(v3 == v / 0x100_0000);
}

/// Decoding the little-endian bytes of a 32-bit value gives the value back.
pub proof fn lemma_le_u32_of_bytes(v: u32)
    ensures
        le_u32(u32_le_bytes(v)) == v,
        u32_le_bytes(v).len() == 4,
{
    reveal(le_u32);
    reveal(u32_le_bytes);
    lemma_spell(v as int);
}

/// Encoding the value of four little-endian bytes gives the bytes back.
pub proof fn lemma_bytes_of_le_u32(s: Seq<u8>)
    requires
        s.len() == 4,
    ensures
        u32_le_bytes(le_u32(s)) == s,
{
    reveal(le_u32);
    reveal(u32_le_bytes);
    lemma_digits(s[0] as int, s[1] as int, s[2] as int, s[3] as int);
    assert(u32_le_bytes(le_u32(s)) =~= s);
}

/// Decoding the big-endian bytes of a 32-bit value gives the value back.
pub proof fn lemma_be_u32_of_bytes(v: u32)
    ensures
        be_u32(u32_be_bytes(v)) == v,
        u32_be_bytes(v).len() == 4,
{
    reveal(be_u32);
    reveal(u32_be_bytes);
    lemma_spell(v as int);
}

/// Decoding the little-endian bytes of a 64-bit value gives the value back.
pub proof fn lemma_le_u64_of_bytes(v: u64)
    ensures
        le_u64(u64_le_bytes(v)) == v,
        u64_le_bytes(v).len() == 8,
{
    reveal(le_u64);
    reveal(u64_le_bytes);
    reveal(le_u32);
    let lo = (v % 0x1_0000_0000) as u32;
    let hi = (v / 0x1_0000_0000) as u32;
    let b = u64_le_bytes(v);
    lemma_le_u32_of_bytes(lo);
    lemma_le_u32_of_bytes(hi);
    assert(b.subrange(4, 8) =~= u32_le_bytes(hi));
    assert(le_u32(b) == le_u32(u32_le_bytes(lo)));
}

/// Encoding the value of eight little-endian bytes gives the bytes back.
pub proof fn lemma_bytes_of_le_u64(s: Seq<u8>)
    requires
        s.len() == 8,
    ensures
        u64_le_bytes(le_u64(s)) == s,
{
    reveal(le_u64);
    reveal(u64_le_bytes);
    reveal(le_u32);
    let lo = le_u32(s);
    let hi = le_u32(s.subrange(4, 8));
    assert(le_u32(s) == le_u32(s.subrange(0, 4)));
    lemma_bytes_of_le_u32(s.subrange(0, 4));
    lemma_bytes_of_le_u32(s.subrange(4, 8));
    let v = lo as int + hi as int * 0x1_0000_0000;
    assert(v % 0x1_0000_0000 == lo && v / 0x1_0000_0000 == hi);
    assert(le_u64(s) == v);
    assert(u64_le_bytes(le_u64(s)) == u32_le_bytes(lo) + u32_le_bytes(hi));
    assert(s.subrange(0, 4) + s.subrange(4, 8) =~= s);
}

/// The two halves of a 64-bit field are its low and high 32 bits.
pub proof fn lemma_le_u64_halves(s: Seq<u8>)
    requires
        s.len() >= 8,
    ensures
        le_u64(s) % 0x1_0000_0000 == le_u32(s.subrange(0, 4)),
        le_u64(s) / 0x1_0000_0000 == le_u32(s.subrange(4, 8)),
{
    reveal(le_u64);
    reveal(le_u32);
    let lo = le_u32(s) as int;
    let hi = le_u32(s.subrange(4, 8)) as int;
    let v = lo + hi * 0x1_0000_0000;
    assert(v % 0x1_0000_0000 == lo && v / 0x1_0000_0000 == hi);
}

/// The bytes of a 64-bit value are those of its low half, then those of its
/// high half.
pub proof fn lemma_u64_bytes_halves(lo: u32, hi: u32)
    ensures
        u64_le_bytes((lo as int + hi as int * 0x1_0000_0000) as u64) == u32_le_bytes(lo)
            + u32_le_bytes(hi),
{
    reveal(u64_le_bytes);
    let v = lo as int + hi as int * 0x1_0000_0000;
    assert(v % 0x1_0000_0000 == lo && v / 0x1_0000_0000 == hi);
}

/// A field read back from the place where it was just written.
pub proof fn lemma_overwrite_read(s: Seq<u8>, p: int, b: Seq<u8>)
    requires
        0 <= p,
        p + b.len() <= s.len(),
    ensures
        overwrite(s, p, b).subrange(p, p + b.len()) == b,
        overwrite(s, p, b).len() == s.len(),
{
    assert(overwrite(s, p, b).subrange(p, p + b.len()) =~= b);
}

/// `byteorder::LittleEndian::read_u32`: the crate reads the first four bytes
/// of the buffer as a little-endian integer and panics on a shorter buffer.
#[verifier::external_body]
fn read_u32(buf: &[u8]) -> (r: u32)
    requires
        buf@.len() >= 4,
    ensures
        r == le_u32(buf@),
{
    LittleEndian::read_u32(buf)
}

/// `byteorder::LittleEndian::read_u64`: the crate reads the first eight bytes
/// of the buffer as a little-endian integer and panics on a shorter buffer.
#[verifier::external_body]
fn read_u64(buf: &[u8]) -> (r: u64)
    requires
        buf@.len() >= 8,
    ensures
        r == le_u64(buf@),
{
    LittleEndian::read_u64(buf)
}

/// `byteorder::LittleEndian::write_u32`: the crate copies the little-endian
/// bytes of `v` over the first four bytes of the buffer, leaves the rest as
/// it was, and panics on a shorter buffer.
#[verifier::external_body]
fn write_u32(buf: &mut [u8], v: u32)
    requires
        old(buf)@.len() >= 4,
    ensures
        final(buf)@ == overwrite(old(buf)@, 0, u32_le_bytes(v)),
{
    LittleEndian::write_u32(buf, v)
}

/// `byteorder::LittleEndian::write_u64`: the crate copies the little-endian
/// bytes of `v` over the first eight bytes of the buffer, leaves the rest as
/// it was, and panics on a shorter buffer.
#[verifier::external_body]
fn write_u64(buf: &mut [u8], v: u64)
    requires
        old(buf)@.len() >= 8,
    ensures
        final(buf)@ == overwrite(old(buf)@, 0, u64_le_bytes(v)),
{
    LittleEndian::write_u64(buf, v)
}

/// Reads the little-endian 32-bit field at byte `p`.
pub fn load_u32(buf: &[u8], p: usize) -> (r: u32)
    requires
        p + 4 <= buf.len(),
    ensures
        r == u32_at(buf@, p as int),
{
    read_u32(vstd::slice::slice_subrange(buf, p, p + 4))
}

/// Reads the little-endian 64-bit field at byte `p`.
pub fn load_u64(buf: &[u8], p: usize) -> (r: u64)
    requires
        p + 8 <= buf.len(),
    ensures
        r == u64_at(buf@, p as int),
{
    read_u64(vstd::slice::slice_subrange(buf, p, p + 8))
}

/// Writes `v` as the little-endian 32-bit field at byte `p`.
pub fn store_u32(buf: &mut [u8], p: usize, v: u32)
    requires
        p + 4 <= old(buf).len(),
    ensures
        final(buf)@ == overwrite(old(buf)@, p as int, u32_le_bytes(v)),
{
    let (_, tail) = buf.split_at_mut(p);
    let (field, _) = tail.split_at_mut(4);
    write_u32(field, v);
    proof {
        lemma_le_u32_of_bytes(v);
        assert(final(buf)@ =~= overwrite(old(buf)@, p as int, u32_le_bytes(v)));
    }
}

/// Writes `v` as the little-endian 64-bit field at byte `p`.
pub fn store_u64(buf: &mut [u8], p: usize, v: u64)
    requires
        p + 8 <= old(buf).len(),
    ensures
        final(buf)@ == overwrite(old(buf)@, p as int, u64_le_bytes(v)),
{
    let (_, tail) = buf.split_at_mut(p);
    let (field, _) = tail.split_at_mut(8);
    write_u64(field, v);
    proof {
        lemma_le_u64_of_bytes(v);
        assert(final(buf)@ =~= overwrite(old(buf)@, p as int, u64_le_bytes(v)));
    }
}

/// Reads the big-endian 32-bit field at byte `p`.
pub fn load_u32_be(buf: &[u8], p: usize) -> (r: u32)
    requires
        p + 4 <= buf.len(),
    ensures
        r == u32_be_at(buf@, p as int),
{
    proof {
        reveal(be_u32);
    }
    let b0: u32 = buf[p] as u32;
    let b1: u32 = buf[p + 1] as u32;
    let b2: u32 = buf[p + 2] as u32;
    let b3: u32 = buf[p + 3] as u32;
    b3 + b2 * 0x100 + b1 * 0x1_0000 + b0 * 0x100_0000
}

/// Writes `v` as the big-endian 32-bit field at byte `p`.
pub fn store_u32_be(buf: &mut [u8], p: usize, v: u32)
    requires
        p + 4 <= old(buf).len(),
    ensures
        final(buf)@ == overwrite(old(buf)@, p as int, u32_be_bytes(v)),
{
    buf[p] = (v / 0x100_0000) as u8;
    buf[p + 1] = (v / 0x1_0000 % 0x100) as u8;
    buf[p + 2] = (v / 0x100 % 0x100) as u8;
    buf[p + 3] = (v % 0x100) as u8;
    proof {
        reveal(u32_be_bytes);
        assert(buf@ =~= overwrite(old(buf)@, p as int, u32_be_bytes(v)));
    }
}

} // verus!
