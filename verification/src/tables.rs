//! The delta transforms of the typed tables of an object file: relocations
//! with and without addend, relative relocations, the dynamic table and the
//! symbol table.
//!
//! A table is a sequence of fixed-size records. Going forward, an integer
//! field of a record is replaced by its difference to the same field of the
//! record before; going back, by the running sum. All arithmetic wraps in the
//! width of the field. A table whose length is not a multiple of the record
//! size is left as it is, in both directions.

use crate::bytes::{
    lemma_bytes_of_le_u32, lemma_bytes_of_le_u64, lemma_le_u32_of_bytes, lemma_le_u64_of_bytes,
    load_u32, load_u64, overwrite, store_u32, store_u64, u32_at, u32_le_bytes, u64_at,
    u64_le_bytes,
};
use crate::zigzag::{
    bits_of, signed_of, to_signed, to_unsigned, unzigzag, zigzag, zigzag_decode, zigzag_encode,
};
use vstd::prelude::*;

verus! {

/// Difference modulo 2^64.
pub open spec fn wsub64(a: u64, b: u64) -> u64 {
    vstd::wrapping::u64_specs::wrapping_sub(a, b)
}

/// Sum modulo 2^64.
pub open spec fn wadd64(a: u64, b: u64) -> u64 {
    vstd::wrapping::u64_specs::wrapping_add(a, b)
}

/// Difference modulo 2^32.
pub open spec fn wsub32(a: u32, b: u32) -> u32 {
    vstd::wrapping::u32_specs::wrapping_sub(a, b)
}

/// Sum modulo 2^32.
pub open spec fn wadd32(a: u32, b: u32) -> u32 {
    vstd::wrapping::u32_specs::wrapping_add(a, b)
}

/// The value that the transform carries from the 64-bit field at byte `p`
/// to the same field of the next record, `stride` bytes on: going forward
/// the field itself, going back the running sum of the fields up to it.
/// Before the first record it is 0.
pub open spec fn carry64(s: Seq<u8>, stride: int, p: int, forward: bool) -> u64
    decreases p + stride,
{
    if p < 0 || stride <= 0 {
        0
    } else if forward {
        u64_at(s, p)
    } else {
        wadd64(carry64(s, stride, p - stride, forward), u64_at(s, p))
    }
}

/// What the transform stores in the 64-bit field at byte `p`: going
/// forward the difference to the field of the record before, going back the
/// running sum.
pub open spec fn stored64(s: Seq<u8>, stride: int, p: int, forward: bool) -> u64 {
    if forward {
        wsub64(u64_at(s, p), carry64(s, stride, p - stride, forward))
    } else {
        carry64(s, stride, p, forward)
    }
}

/// As `carry64`, for a 32-bit field.
pub open spec fn carry32(s: Seq<u8>, stride: int, p: int, forward: bool) -> u32
    decreases p + stride,
{
    if p < 0 || stride <= 0 {
        0
    } else if forward {
        u32_at(s, p)
    } else {
        wadd32(carry32(s, stride, p - stride, forward), u32_at(s, p))
    }
}

/// As `stored64`, for a 32-bit field.
pub open spec fn stored32(s: Seq<u8>, stride: int, p: int, forward: bool) -> u32 {
    if forward {
        wsub32(u32_at(s, p), carry32(s, stride, p - stride, forward))
    } else {
        carry32(s, stride, p, forward)
    }
}

/// The addend that is carried from the addend field at byte `p` to that of
/// the next record, as a signed number: going forward the addend itself,
/// going back the running sum of the decoded differences. Before the first
/// record it is 0.
pub open spec fn carry_addend(s: Seq<u8>, p: int, forward: bool) -> i64
    decreases p + 24,
{
    if p < 0 {
        0
    } else if forward {
        signed_of(u64_at(s, p))
    } else {
        vstd::wrapping::i64_specs::wrapping_add(
            carry_addend(s, p - 24, forward),
            unzigzag(u64_at(s, p)),
        )
    }
}

/// What the transform stores in the addend field at byte `p`: going
/// forward the zigzag code of the difference to the addend before, going
/// back the running sum.
pub open spec fn stored_addend(s: Seq<u8>, p: int, forward: bool) -> u64 {
    if forward {
        zigzag(
            vstd::wrapping::i64_specs::wrapping_sub(
                signed_of(u64_at(s, p)),
                carry_addend(s, p - 24, forward),
            ),
        )
    } else {
        bits_of(carry_addend(s, p, forward))
    }
}

/// The base address that is carried over the entry at byte `p` of a table of
/// relative relocations. Only an entry with low bit 0 is an address.
pub open spec fn carry_relr(s: Seq<u8>, p: int, forward: bool) -> u64
    decreases p + 8,
{
    if p < 0 {
        0
    } else if u64_at(s, p) % 2 != 0 {
        carry_relr(s, p - 8, forward)
    } else if forward {
        u64_at(s, p)
    } else {
        wadd64(carry_relr(s, p - 8, forward), u64_at(s, p))
    }
}

/// What the transform stores in the entry at byte `p` of a table of relative
/// relocations: a bitmap as it is, an address as its difference to the last
/// address before it or, going back, as the running sum.
pub open spec fn stored_relr(s: Seq<u8>, p: int, forward: bool) -> u64 {
    if u64_at(s, p) % 2 != 0 {
        u64_at(s, p)
    } else if forward {
        wsub64(u64_at(s, p), carry_relr(s, p - 8, forward))
    } else {
        carry_relr(s, p, forward)
    }
}

/// The record of a relocation table with addends that starts at byte `p`,
/// transformed: the offset as a difference, the type as it is, the symbol
/// index (the high half of the info word) as a difference, the addend as
/// the zigzag code of a difference.
pub open spec fn rela_record(s: Seq<u8>, p: int, forward: bool) -> Seq<u8> {
    u64_le_bytes(stored64(s, 24, p, forward)) + s.subrange(p + 8, p + 12) + u32_le_bytes(
        stored32(s, 24, p + 12, forward),
    ) + u64_le_bytes(stored_addend(s, p + 16, forward))
}

/// The record of a relocation table without addends that starts at byte `p`,
/// transformed.
pub open spec fn rel_record(s: Seq<u8>, p: int, forward: bool) -> Seq<u8> {
    u64_le_bytes(stored64(s, 16, p, forward)) + s.subrange(p + 8, p + 12) + u32_le_bytes(
        stored32(s, 16, p + 12, forward),
    )
}

/// The symbol record that starts at byte `p`, transformed: name, value and
/// size as differences, the four bytes between name and value as they are.
pub open spec fn sym_record(s: Seq<u8>, p: int, forward: bool) -> Seq<u8> {
    u32_le_bytes(stored32(s, 24, p, forward)) + s.subrange(p + 4, p + 8) + u64_le_bytes(
        stored64(s, 24, p + 8, forward),
    ) + u64_le_bytes(stored64(s, 24, p + 16, forward))
}

/// The record of the dynamic table that starts at byte `p`, transformed: tag
/// and value as differences.
pub open spec fn dynamic_record(s: Seq<u8>, p: int, forward: bool) -> Seq<u8> {
    u64_le_bytes(stored64(s, 16, p, forward)) + u64_le_bytes(stored64(s, 16, p + 8, forward))
}

/// The entry of a table of relative relocations that starts at byte `p`,
/// transformed.
pub open spec fn relr_record(s: Seq<u8>, p: int, forward: bool) -> Seq<u8> {
    u64_le_bytes(stored_relr(s, p, forward))
}

/// The kinds of table.
#[derive(Clone, Copy, Debug, PartialEq, Eq, Structural)]
pub enum TableKind {
    /// Relocations with addend, 24-byte records.
    Rela,
    /// Relocations without addend, 16-byte records.
    Rel,
    /// Symbols, 24-byte records.
    Sym,
    /// Relative relocations, 8-byte entries.
    Relr,
    /// The dynamic table, 16-byte records.
    Dynamic,
}

/// The record size of a kind of table.
pub open spec fn record_size(kind: TableKind) -> int {
    match kind {
        TableKind::Rela => 24,
        TableKind::Rel => 16,
        TableKind::Sym => 24,
        TableKind::Relr => 8,
        TableKind::Dynamic => 16,
    }
}

/// The transformed record that starts at byte `p` of a table of kind `kind`.
#[verifier::opaque]
pub open spec fn table_record(kind: TableKind, s: Seq<u8>, p: int, forward: bool) -> Seq<u8> {
    match kind {
        TableKind::Rela => rela_record(s, p, forward),
        TableKind::Rel => rel_record(s, p, forward),
        TableKind::Sym => sym_record(s, p, forward),
        TableKind::Relr => relr_record(s, p, forward),
        TableKind::Dynamic => dynamic_record(s, p, forward),
    }
}

/// The table `s` with the records that start before byte `done` transformed.
pub open spec fn table_upto(kind: TableKind, s: Seq<u8>, done: int, forward: bool) -> Seq<u8> {
    Seq::new(
        s.len(),
        |k: int|
            if k < done {
                table_record(kind, s, k - k % record_size(kind), forward)[k % record_size(kind)]
            } else {
                s[k]
            },
    )
}

/// The table `s` of kind `kind` after the transform, forward or back. A
/// table that is not made of whole records is not changed.
pub open spec fn table_transformed(kind: TableKind, s: Seq<u8>, forward: bool) -> Seq<u8> {
    if s.len() % (record_size(kind) as nat) != 0 {
        s
    } else {
        table_upto(kind, s, s.len() as int, forward)
    }
}

/// Splits an info word into the symbol index, its high half, and the
/// relocation type, its low half.
fn load_info(buf: &[u8], p: usize) -> (r: (u32, u32))
    requires
        p + 8 <= buf.len(),
    ensures
        r.0 == u32_at(buf@, p + 4),
        r.1 == u32_at(buf@, p as int),
{
    let info = load_u64(buf, p);
    assert(info >> 32 == info / 0x1_0000_0000 && info & 0xFFFF_FFFF == info % 0x1_0000_0000)
        by (bit_vector);
    proof {
        let field = buf@.subrange(p as int, p + 8);
        crate::bytes::lemma_le_u64_halves(field);
        assert(field.subrange(4, 8) =~= buf@.subrange(p + 4, p + 8));
        assert(field.subrange(0, 4) =~= buf@.subrange(p as int, p + 4));
    }
    ((info >> 32) as u32, (info & 0xFFFF_FFFF) as u32)
}

/// Writes an info word made of a symbol index and a relocation type.
fn store_info(buf: &mut [u8], p: usize, sym: u32, typ: u32)
    requires
        p + 8 <= old(buf).len(),
    ensures
        final(buf)@ == overwrite(old(buf)@, p as int, u32_le_bytes(typ) + u32_le_bytes(sym)),
{
    let info: u64 = ((sym as u64) << 32) | (typ as u64);
    assert((((sym as u64) << 32) | (typ as u64)) == typ + sym * 0x1_0000_0000) by (bit_vector);
    proof {
        crate::bytes::lemma_u64_bytes_halves(typ, sym);
    }
    store_u64(buf, p, info);
}

/// A field that lies where the buffer still holds the original bytes reads
/// as in the original.
proof fn lemma_same_field(a: Seq<u8>, b: Seq<u8>, p: int, w: int)
    requires
        0 <= p,
        0 <= w,
        p + w <= a.len(),
        a.len() == b.len(),
        forall|k: int| p <= k < p + w ==> a[k] == b[k],
    ensures
        a.subrange(p, p + w) == b.subrange(p, p + w),
{
    assert(a.subrange(p, p + w) =~= b.subrange(p, p + w));
}

/// Two writes side by side are one write of the joined bytes.
proof fn lemma_overwrite_concat(s: Seq<u8>, p: int, a: Seq<u8>, b: Seq<u8>)
    requires
        0 <= p,
        p + a.len() + b.len() <= s.len(),
    ensures
        overwrite(overwrite(s, p, a), p + a.len(), b) == overwrite(s, p, a + b),
{
    assert(overwrite(overwrite(s, p, a), p + a.len(), b) =~= overwrite(s, p, a + b));
}

/// Writing the bytes that are already there changes nothing.
proof fn lemma_overwrite_keep(s: Seq<u8>, p: int, w: int)
    requires
        0 <= p,
        0 <= w,
        p + w <= s.len(),
    ensures
        overwrite(s, p, s.subrange(p, p + w)) == s,
{
    assert(overwrite(s, p, s.subrange(p, p + w)) =~= s);
}

/// A transformed record has the size of a record.
proof fn lemma_record_len(kind: TableKind, s: Seq<u8>, p: int, forward: bool)
    requires
        0 <= p,
        p + record_size(kind) <= s.len(),
    ensures
        table_record(kind, s, p, forward).len() == record_size(kind),
{
    reveal(table_record);
    lemma_le_u64_of_bytes(stored64(s, record_size(kind), p, forward));
    lemma_le_u64_of_bytes(stored64(s, record_size(kind), p + 8, forward));
    lemma_le_u64_of_bytes(stored64(s, record_size(kind), p + 16, forward));
    lemma_le_u64_of_bytes(stored_addend(s, p + 16, forward));
    lemma_le_u64_of_bytes(stored_relr(s, p, forward));
    lemma_le_u32_of_bytes(stored32(s, record_size(kind), p, forward));
    lemma_le_u32_of_bytes(stored32(s, record_size(kind), p + 12, forward));
}

/// Writing the transformed record at byte `p` over a table whose records
/// before `p` are transformed gives the table with the records up to that
/// one transformed.
proof fn lemma_table_step(kind: TableKind, orig: Seq<u8>, p: int, forward: bool)
    requires
        0 <= p,
        p % record_size(kind) == 0,
        p + record_size(kind) <= orig.len(),
    ensures
        overwrite(
            table_upto(kind, orig, p, forward),
            p,
            table_record(kind, orig, p, forward),
        ) == table_upto(kind, orig, p + record_size(kind), forward),
{
    let size = record_size(kind);
    let rec = table_record(kind, orig, p, forward);
    lemma_record_len(kind, orig, p, forward);
    let lhs = overwrite(table_upto(kind, orig, p, forward), p, rec);
    let rhs = table_upto(kind, orig, p + size, forward);
    assert forall|k: int| 0 <= k < orig.len() implies lhs[k] == rhs[k] by {
        if p <= k < p + size {
            vstd::arithmetic::div_mod::lemma_fundamental_div_mod(p, size);
            assert(size * (p / size) == (p / size) * size) by (nonlinear_arith);
            crate::shuffle::lemma_cell(p / size, k - p, size, p / size + 1);
        }
    }
    assert(lhs =~= rhs);
}

/// Transforms a table of 16-byte dynamic records in place.
pub fn transform_dynamic16(buf: &mut [u8], is_compress: bool)
    ensures
        final(buf)@ == table_transformed(TableKind::Dynamic, old(buf)@, is_compress),
{
    if buf.len() % 16 != 0 {
        return ;
    }
    let n = buf.len() / 16;
    let mut prev_tag: u64 = 0;
    let mut prev_val: u64 = 0;
    let mut i: usize = 0;
    let ghost orig = buf@;
    proof {
        assert(buf@ =~= table_upto(TableKind::Dynamic, orig, 0, is_compress));
    }
    while i < n
        invariant
            i <= n,
            orig == old(buf)@,
            buf.len() == orig.len(),
            n * 16 == buf.len(),
            buf@ == table_upto(TableKind::Dynamic, orig, i * 16, is_compress),
            prev_tag == carry64(orig, 16, i * 16 - 16, is_compress),
            prev_val == carry64(orig, 16, i * 16 - 8, is_compress),
        decreases n - i,
    {
        let p = i * 16;
        let tag = load_u64(buf, p);
        let val = load_u64(buf, p + 8);
        proof {
            lemma_same_field(buf@, orig, p as int, 8);
            lemma_same_field(buf@, orig, p + 8, 8);
        }
        let ghost before = buf@;
        let tag_out = if is_compress {
            tag.wrapping_sub(prev_tag)
        } else {
            prev_tag.wrapping_add(tag)
        };
        let val_out = if is_compress {
            val.wrapping_sub(prev_val)
        } else {
            prev_val.wrapping_add(val)
        };
        store_u64(buf, p, tag_out);
        store_u64(buf, p + 8, val_out);
        prev_tag = if is_compress { tag } else { tag_out };
        prev_val = if is_compress { val } else { val_out };
        proof {
            reveal(table_record);
            lemma_le_u64_of_bytes(tag_out);
            lemma_le_u64_of_bytes(val_out);
            lemma_overwrite_concat(before, p as int, u64_le_bytes(tag_out), u64_le_bytes(val_out));
            lemma_table_step(TableKind::Dynamic, orig, p as int, is_compress);
        }
        i = i + 1;
    }
}

/// Transforms a table of 24-byte relocation records with addends in place.
pub fn transform_rela24(buf: &mut [u8], is_compress: bool)
    ensures
        final(buf)@ == table_transformed(TableKind::Rela, old(buf)@, is_compress),
{
    if buf.len() % 24 != 0 {
        return ;
    }
    let n = buf.len() / 24;
    let mut prev_off: u64 = 0;
    let mut prev_sym: u32 = 0;
    let mut prev_add: i64 = 0;
    let mut i: usize = 0;
    let ghost orig = buf@;
    proof {
        assert(buf@ =~= table_upto(TableKind::Rela, orig, 0, is_compress));
    }
    while i < n
        invariant
            i <= n,
            orig == old(buf)@,
            buf.len() == orig.len(),
            n * 24 == buf.len(),
            buf@ == table_upto(TableKind::Rela, orig, i * 24, is_compress),
            prev_off == carry64(orig, 24, i * 24 - 24, is_compress),
            prev_sym == carry32(orig, 24, i * 24 - 12, is_compress),
            prev_add == carry_addend(orig, i * 24 - 8, is_compress),
        decreases n - i,
    {
        let p = i * 24;
        let off = load_u64(buf, p);
        let (sym, typ) = load_info(buf, p + 8);
        let add_bits = load_u64(buf, p + 16);
        proof {
            lemma_same_field(buf@, orig, p as int, 8);
            lemma_same_field(buf@, orig, p + 8, 4);
            lemma_same_field(buf@, orig, p + 12, 4);
            lemma_same_field(buf@, orig, p + 16, 8);
        }
        let ghost before = buf@;
        let off_out: u64;
        let sym_out: u32;
        let add_out: u64;
        if is_compress {
            let add = to_signed(add_bits);
            off_out = off.wrapping_sub(prev_off);
            sym_out = sym.wrapping_sub(prev_sym);
            add_out = zigzag_encode(add.wrapping_sub(prev_add));
            prev_off = off;
            prev_sym = sym;
            prev_add = add;
        } else {
            let add = prev_add.wrapping_add(zigzag_decode(add_bits));
            off_out = prev_off.wrapping_add(off);
            sym_out = prev_sym.wrapping_add(sym);
            add_out = to_unsigned(add);
            prev_off = off_out;
            prev_sym = sym_out;
            prev_add = add;
        }
        store_u64(buf, p, off_out);
        store_info(buf, p + 8, sym_out, typ);
        store_u64(buf, p + 16, add_out);
        proof {
            reveal(table_record);
            let a = u64_le_bytes(off_out);
            let t = u32_le_bytes(typ);
            let y = u32_le_bytes(sym_out);
            let d = u64_le_bytes(add_out);
            lemma_le_u64_of_bytes(off_out);
            lemma_le_u32_of_bytes(typ);
            lemma_le_u32_of_bytes(sym_out);
            lemma_le_u64_of_bytes(add_out);
            lemma_bytes_of_le_u32(orig.subrange(p + 8, p + 12));
            lemma_overwrite_concat(before, p as int, a, t + y);
            lemma_overwrite_concat(before, p as int, a + (t + y), d);
            assert(a + (t + y) + d =~= a + t + y + d);
            lemma_table_step(TableKind::Rela, orig, p as int, is_compress);
        }
        i = i + 1;
    }
}

/// Transforms a table of 16-byte relocation records without addends in place.
pub fn transform_rel16(buf: &mut [u8], is_compress: bool)
    ensures
        final(buf)@ == table_transformed(TableKind::Rel, old(buf)@, is_compress),
{
    if buf.len() % 16 != 0 {
        return ;
    }
    let n = buf.len() / 16;
    let mut prev_off: u64 = 0;
    let mut prev_sym: u32 = 0;
    let mut i: usize = 0;
    let ghost orig = buf@;
    proof {
        assert(buf@ =~= table_upto(TableKind::Rel, orig, 0, is_compress));
    }
    while i < n
        invariant
            i <= n,
            orig == old(buf)@,
            buf.len() == orig.len(),
            n * 16 == buf.len(),
            buf@ == table_upto(TableKind::Rel, orig, i * 16, is_compress),
            prev_off == carry64(orig, 16, i * 16 - 16, is_compress),
            prev_sym == carry32(orig, 16, i * 16 - 4, is_compress),
        decreases n - i,
    {
        let p = i * 16;
        let off = load_u64(buf, p);
        let (sym, typ) = load_info(buf, p + 8);
        proof {
            lemma_same_field(buf@, orig, p as int, 8);
            lemma_same_field(buf@, orig, p + 8, 4);
            lemma_same_field(buf@, orig, p + 12, 4);
        }
        let ghost before = buf@;
        let off_out: u64;
        let sym_out: u32;
        if is_compress {
            off_out = off.wrapping_sub(prev_off);
            sym_out = sym.wrapping_sub(prev_sym);
            prev_off = off;
            prev_sym = sym;
        } else {
            off_out = prev_off.wrapping_add(off);
            sym_out = prev_sym.wrapping_add(sym);
            prev_off = off_out;
            prev_sym = sym_out;
        }
        store_u64(buf, p, off_out);
        store_info(buf, p + 8, sym_out, typ);
        proof {
            reveal(table_record);
            let a = u64_le_bytes(off_out);
            let t = u32_le_bytes(typ);
            let y = u32_le_bytes(sym_out);
            lemma_le_u64_of_bytes(off_out);
            lemma_le_u32_of_bytes(typ);
            lemma_le_u32_of_bytes(sym_out);
            lemma_bytes_of_le_u32(orig.subrange(p + 8, p + 12));
            lemma_overwrite_concat(before, p as int, a, t + y);
            assert(a + (t + y) =~= a + t + y);
            lemma_table_step(TableKind::Rel, orig, p as int, is_compress);
        }
        i = i + 1;
    }
}

/// Transforms a table of 24-byte symbol records in place.
pub fn transform_sym24(buf: &mut [u8], is_compress: bool)
    ensures
        final(buf)@ == table_transformed(TableKind::Sym, old(buf)@, is_compress),
{
    if buf.len() % 24 != 0 {
        return ;
    }
    let n = buf.len() / 24;
    let mut prev_name: u32 = 0;
    let mut prev_val: u64 = 0;
    let mut prev_sz: u64 = 0;
    let mut i: usize = 0;
    let ghost orig = buf@;
    proof {
        assert(buf@ =~= table_upto(TableKind::Sym, orig, 0, is_compress));
    }
    while i < n
        invariant
            i <= n,
            orig == old(buf)@,
            buf.len() == orig.len(),
            n * 24 == buf.len(),
            buf@ == table_upto(TableKind::Sym, orig, i * 24, is_compress),
            prev_name == carry32(orig, 24, i * 24 - 24, is_compress),
            prev_val == carry64(orig, 24, i * 24 - 16, is_compress),
            prev_sz == carry64(orig, 24, i * 24 - 8, is_compress),
        decreases n - i,
    {
        let p = i * 24;
        let name = load_u32(buf, p);
        let val = load_u64(buf, p + 8);
        let sz = load_u64(buf, p + 16);
        proof {
            lemma_same_field(buf@, orig, p as int, 4);
            lemma_same_field(buf@, orig, p + 4, 4);
            lemma_same_field(buf@, orig, p + 8, 8);
            lemma_same_field(buf@, orig, p + 16, 8);
        }
        let ghost before = buf@;
        let name_out: u32;
        let val_out: u64;
        let sz_out: u64;
        if is_compress {
            name_out = name.wrapping_sub(prev_name);
            val_out = val.wrapping_sub(prev_val);
            sz_out = sz.wrapping_sub(prev_sz);
            prev_name = name;
            prev_val = val;
            prev_sz = sz;
        } else {
            name_out = prev_name.wrapping_add(name);
            val_out = prev_val.wrapping_add(val);
            sz_out = prev_sz.wrapping_add(sz);
            prev_name = name_out;
            prev_val = val_out;
            prev_sz = sz_out;
        }
        store_u32(buf, p, name_out);
        store_u64(buf, p + 8, val_out);
        store_u64(buf, p + 16, sz_out);
        proof {
            reveal(table_record);
            let a = u32_le_bytes(name_out);
            let k = before.subrange(p + 4, p + 8);
            let v = u64_le_bytes(val_out);
            let z = u64_le_bytes(sz_out);
            lemma_le_u32_of_bytes(name_out);
            lemma_le_u64_of_bytes(val_out);
            lemma_le_u64_of_bytes(sz_out);
            assert(buf@ =~= overwrite(before, p as int, a + k + v + z));
            lemma_table_step(TableKind::Sym, orig, p as int, is_compress);
        }
        i = i + 1;
    }
}

/// Transforms a table of 8-byte relative relocation entries in place.
pub fn transform_relr8(buf: &mut [u8], is_compress: bool)
    ensures
        final(buf)@ == table_transformed(TableKind::Relr, old(buf)@, is_compress),
{
    if buf.len() % 8 != 0 {
        return ;
    }
    let n = buf.len() / 8;
    let mut prev_base: u64 = 0;
    let mut i: usize = 0;
    let ghost orig = buf@;
    proof {
        assert(buf@ =~= table_upto(TableKind::Relr, orig, 0, is_compress));
    }
    while i < n
        invariant
            i <= n,
            orig == old(buf)@,
            buf.len() == orig.len(),
            n * 8 == buf.len(),
            buf@ == table_upto(TableKind::Relr, orig, i * 8, is_compress),
            prev_base == carry_relr(orig, i * 8 - 8, is_compress),
        decreases n - i,
    {
        let p = i * 8;
        let val = load_u64(buf, p);
        proof {
            lemma_same_field(buf@, orig, p as int, 8);
        }
        let ghost before = buf@;
        assert(val & 1 == val % 2) by (bit_vector);
        if (val & 1) == 0 {
            let out = if is_compress {
                val.wrapping_sub(prev_base)
            } else {
                prev_base.wrapping_add(val)
            };
            store_u64(buf, p, out);
            prev_base = if is_compress { val } else { out };
        }
        proof {
            reveal(table_record);
            lemma_le_u64_of_bytes(stored_relr(orig, p as int, is_compress));
            if val % 2 != 0 {
                lemma_bytes_of_le_u64(orig.subrange(p as int, p + 8));
                lemma_overwrite_keep(before, p as int, 8);
            }
            lemma_table_step(TableKind::Relr, orig, p as int, is_compress);
        }
        i = i + 1;
    }
}

} // verus!
