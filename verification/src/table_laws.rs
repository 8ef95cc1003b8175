//! The table transforms are inverse to each other: going back after going
//! forward restores every table.

use crate::bytes::{
    lemma_bytes_of_le_u32, lemma_bytes_of_le_u64, lemma_le_u32_of_bytes, lemma_le_u64_of_bytes,
    u32_at, u32_le_bytes, u64_at, u64_le_bytes,
};
use crate::shuffle::lemma_cell;
use crate::tables::{
    carry32, carry64, carry_addend, carry_relr, record_size, stored32, stored64, stored_addend,
    stored_relr, table_record, table_transformed, TableKind,
};
use crate::zigzag::{lemma_signed_bits, lemma_zigzag_round_trip};
use vstd::prelude::*;

verus! {

/// The transformed table holds, at each record's place, the transformed
/// record.
pub proof fn lemma_record_at(kind: TableKind, s: Seq<u8>, p: int, forward: bool)
    requires
        s.len() % (record_size(kind) as nat) == 0,
        0 <= p,
        p % record_size(kind) == 0,
        p + record_size(kind) <= s.len(),
    ensures
        table_transformed(kind, s, forward).subrange(p, p + record_size(kind)) == table_record(
            kind,
            s,
            p,
            forward,
        ),
        table_transformed(kind, s, forward).len() == s.len(),
        table_record(kind, s, p, forward).len() == record_size(kind),
{
    let size = record_size(kind);
    let t = table_transformed(kind, s, forward);
    let rec = table_record(kind, s, p, forward);
    assert(rec.len() == size) by {
        reveal(table_record);
        lemma_le_u64_of_bytes(stored64(s, size, p, forward));
        lemma_le_u64_of_bytes(stored64(s, size, p + 8, forward));
        lemma_le_u64_of_bytes(stored64(s, size, p + 16, forward));
        lemma_le_u64_of_bytes(stored_addend(s, p + 16, forward));
        lemma_le_u64_of_bytes(stored_relr(s, p, forward));
        lemma_le_u32_of_bytes(stored32(s, size, p, forward));
        lemma_le_u32_of_bytes(stored32(s, size, p + 12, forward));
    }
    assert forall|k: int| p <= k < p + size implies t[k] == rec[k - p] by {
        vstd::arithmetic::div_mod::lemma_fundamental_div_mod(p, size);
        assert(size * (p / size) == (p / size) * size) by (nonlinear_arith);
        lemma_cell(p / size, k - p, size, p / size + 1);
    }
    assert(t.subrange(p, p + size) =~= rec);
}

/// A 64-bit field that holds a difference sums up to the original field.
proof fn lemma_step64(s: Seq<u8>, t: Seq<u8>, stride: int, p: int)
    requires
        stride > 0,
        0 <= p,
        u64_at(t, p) == stored64(s, stride, p, true),
        carry64(t, stride, p - stride, false) == carry64(s, stride, p - stride, true),
    ensures
        carry64(t, stride, p, false) == u64_at(s, p),
        carry64(s, stride, p, true) == u64_at(s, p),
{
}

/// A 32-bit field that holds a difference sums up to the original field.
proof fn lemma_step32(s: Seq<u8>, t: Seq<u8>, stride: int, p: int)
    requires
        stride > 0,
        0 <= p,
        u32_at(t, p) == stored32(s, stride, p, true),
        carry32(t, stride, p - stride, false) == carry32(s, stride, p - stride, true),
    ensures
        carry32(t, stride, p, false) == u32_at(s, p),
        carry32(s, stride, p, true) == u32_at(s, p),
{
}

/// An addend field that holds the code of a difference sums up to the
/// original addend.
proof fn lemma_step_addend(s: Seq<u8>, t: Seq<u8>, p: int)
    requires
        0 <= p,
        u64_at(t, p) == stored_addend(s, p, true),
        carry_addend(t, p - 24, false) == carry_addend(s, p - 24, true),
    ensures
        carry_addend(t, p, false) == carry_addend(s, p, true),
        stored_addend(t, p, false) == u64_at(s, p),
{
    let prev = carry_addend(s, p - 24, true);
    let cur = crate::zigzag::signed_of(u64_at(s, p));
    lemma_zigzag_round_trip(vstd::wrapping::i64_specs::wrapping_sub(cur, prev));
    lemma_signed_bits(u64_at(s, p), cur);
}

/// The carried base of a table of relative relocations is even.
proof fn lemma_relr_even(s: Seq<u8>, p: int, forward: bool)
    ensures
        carry_relr(s, p, forward) % 2 == 0,
    decreases p + 8,
{
    if p >= 0 {
        lemma_relr_even(s, p - 8, forward);
    }
}

/// An entry of relative relocations that holds a difference sums up to the
/// original entry.
proof fn lemma_step_relr(s: Seq<u8>, t: Seq<u8>, p: int)
    requires
        0 <= p,
        u64_at(t, p) == stored_relr(s, p, true),
        carry_relr(t, p - 8, false) == carry_relr(s, p - 8, true),
    ensures
        carry_relr(t, p, false) == carry_relr(s, p, true),
        stored_relr(t, p, false) == u64_at(s, p),
{
    lemma_relr_even(s, p - 8, true);
}

/// The field of `width` bytes at offset `f` of a record.
proof fn lemma_field_of_record(t: Seq<u8>, rec: Seq<u8>, p: int, size: int, f: int, width: int)
    requires
        0 <= p,
        0 <= f,
        0 <= width,
        f + width <= size,
        p + size <= t.len(),
        t.subrange(p, p + size) == rec,
    ensures
        t.subrange(p + f, p + f + width) == rec.subrange(f, f + width),
{
    let a = t.subrange(p + f, p + f + width);
    let b = rec.subrange(f, f + width);
    assert forall|k: int| 0 <= k < width implies a[k] == b[k] by {
        assert(rec[f + k] == t.subrange(p, p + size)[f + k]);
    }
    assert(a =~= b);
}

/// What the fields of the forward transform of `s` hold, for the record at
/// byte `p`.
proof fn lemma_forward_fields(kind: TableKind, s: Seq<u8>, p: int)
    requires
        s.len() % (record_size(kind) as nat) == 0,
        0 <= p,
        p % record_size(kind) == 0,
        p + record_size(kind) <= s.len(),
    ensures
        ({
            let t = table_transformed(kind, s, true);
            match kind {
                TableKind::Rela => {
                    &&& u64_at(t, p) == stored64(s, 24, p, true)
                    &&& t.subrange(p + 8, p + 12) == s.subrange(p + 8, p + 12)
                    &&& u32_at(t, p + 12) == stored32(s, 24, p + 12, true)
                    &&& u64_at(t, p + 16) == stored_addend(s, p + 16, true)
                },
                TableKind::Rel => {
                    &&& u64_at(t, p) == stored64(s, 16, p, true)
                    &&& t.subrange(p + 8, p + 12) == s.subrange(p + 8, p + 12)
                    &&& u32_at(t, p + 12) == stored32(s, 16, p + 12, true)
                },
                TableKind::Sym => {
                    &&& u32_at(t, p) == stored32(s, 24, p, true)
                    &&& t.subrange(p + 4, p + 8) == s.subrange(p + 4, p + 8)
                    &&& u64_at(t, p + 8) == stored64(s, 24, p + 8, true)
                    &&& u64_at(t, p + 16) == stored64(s, 24, p + 16, true)
                },
                TableKind::Relr => u64_at(t, p) == stored_relr(s, p, true),
                TableKind::Dynamic => {
                    &&& u64_at(t, p) == stored64(s, 16, p, true)
                    &&& u64_at(t, p + 8) == stored64(s, 16, p + 8, true)
                },
            }
        }),
{
    let t = table_transformed(kind, s, true);
    let size = record_size(kind);
    let rec = table_record(kind, s, p, true);
    lemma_record_at(kind, s, p, true);
    reveal(table_record);
    lemma_le_u64_of_bytes(stored64(s, size, p, true));
    lemma_le_u64_of_bytes(stored64(s, size, p + 8, true));
    lemma_le_u64_of_bytes(stored64(s, size, p + 16, true));
    lemma_le_u64_of_bytes(stored_addend(s, p + 16, true));
    lemma_le_u64_of_bytes(stored_relr(s, p, true));
    lemma_le_u32_of_bytes(stored32(s, size, p, true));
    lemma_le_u32_of_bytes(stored32(s, size, p + 12, true));
    match kind {
        TableKind::Rela => {
            lemma_field_of_record(t, rec, p, size, 0, 8);
            lemma_field_of_record(t, rec, p, size, 8, 4);
            lemma_field_of_record(t, rec, p, size, 12, 4);
            lemma_field_of_record(t, rec, p, size, 16, 8);
            assert(rec.subrange(0, 8) =~= u64_le_bytes(stored64(s, 24, p, true)));
            assert(rec.subrange(8, 12) =~= s.subrange(p + 8, p + 12));
            assert(rec.subrange(12, 16) =~= u32_le_bytes(stored32(s, 24, p + 12, true)));
            assert(rec.subrange(16, 24) =~= u64_le_bytes(stored_addend(s, p + 16, true)));
        },
        TableKind::Rel => {
            lemma_field_of_record(t, rec, p, size, 0, 8);
            lemma_field_of_record(t, rec, p, size, 8, 4);
            lemma_field_of_record(t, rec, p, size, 12, 4);
            assert(rec.subrange(0, 8) =~= u64_le_bytes(stored64(s, 16, p, true)));
            assert(rec.subrange(8, 12) =~= s.subrange(p + 8, p + 12));
            assert(rec.subrange(12, 16) =~= u32_le_bytes(stored32(s, 16, p + 12, true)));
        },
        TableKind::Sym => {
            lemma_field_of_record(t, rec, p, size, 0, 4);
            lemma_field_of_record(t, rec, p, size, 4, 4);
            lemma_field_of_record(t, rec, p, size, 8, 8);
            lemma_field_of_record(t, rec, p, size, 16, 8);
            assert(rec.subrange(0, 4) =~= u32_le_bytes(stored32(s, 24, p, true)));
            assert(rec.subrange(4, 8) =~= s.subrange(p + 4, p + 8));
            assert(rec.subrange(8, 16) =~= u64_le_bytes(stored64(s, 24, p + 8, true)));
            assert(rec.subrange(16, 24) =~= u64_le_bytes(stored64(s, 24, p + 16, true)));
        },
        TableKind::Relr => {
            lemma_field_of_record(t, rec, p, size, 0, 8);
            assert(rec.subrange(0, 8) =~= rec);
        },
        TableKind::Dynamic => {
            lemma_field_of_record(t, rec, p, size, 0, 8);
            lemma_field_of_record(t, rec, p, size, 8, 8);
            assert(rec.subrange(0, 8) =~= u64_le_bytes(stored64(s, 16, p, true)));
            assert(rec.subrange(8, 16) =~= u64_le_bytes(stored64(s, 16, p + 8, true)));
        },
    }
}

/// The record before a record starts at a multiple of the record size too.
proof fn lemma_record_before(kind: TableKind, p: int)
    requires
        p % record_size(kind) == 0,
    ensures
        (p - record_size(kind)) % record_size(kind) == 0,
{
    match kind {
        TableKind::Rela => assert((p - 24) % 24 == 0),
        TableKind::Rel => assert((p - 16) % 16 == 0),
        TableKind::Sym => assert((p - 24) % 24 == 0),
        TableKind::Relr => assert((p - 8) % 8 == 0),
        TableKind::Dynamic => assert((p - 16) % 16 == 0),
    }
}

/// Going back over the forward transform of `s`, the values carried over
/// the record at byte `p` are those of `s`.
proof fn lemma_carries_back(kind: TableKind, s: Seq<u8>, p: int)
    requires
        s.len() % (record_size(kind) as nat) == 0,
        -record_size(kind) <= p,
        p % record_size(kind) == 0,
        p + record_size(kind) <= s.len(),
    ensures
        ({
            let t = table_transformed(kind, s, true);
            match kind {
                TableKind::Rela => {
                    &&& carry64(t, 24, p, false) == carry64(s, 24, p, true)
                    &&& carry32(t, 24, p + 12, false) == carry32(s, 24, p + 12, true)
                    &&& carry_addend(t, p + 16, false) == carry_addend(s, p + 16, true)
                },
                TableKind::Rel => {
                    &&& carry64(t, 16, p, false) == carry64(s, 16, p, true)
                    &&& carry32(t, 16, p + 12, false) == carry32(s, 16, p + 12, true)
                },
                TableKind::Sym => {
                    &&& carry32(t, 24, p, false) == carry32(s, 24, p, true)
                    &&& carry64(t, 24, p + 8, false) == carry64(s, 24, p + 8, true)
                    &&& carry64(t, 24, p + 16, false) == carry64(s, 24, p + 16, true)
                },
                TableKind::Relr => carry_relr(t, p, false) == carry_relr(s, p, true),
                TableKind::Dynamic => {
                    &&& carry64(t, 16, p, false) == carry64(s, 16, p, true)
                    &&& carry64(t, 16, p + 8, false) == carry64(s, 16, p + 8, true)
                },
            }
        }),
    decreases p + record_size(kind),
{
    let t = table_transformed(kind, s, true);
    if p >= 0 {
        lemma_record_before(kind, p);
        lemma_carries_back(kind, s, p - record_size(kind));
        lemma_forward_fields(kind, s, p);
        match kind {
            TableKind::Rela => {
                lemma_step64(s, t, 24, p);
                lemma_step32(s, t, 24, p + 12);
                lemma_step_addend(s, t, p + 16);
            },
            TableKind::Rel => {
                lemma_step64(s, t, 16, p);
                lemma_step32(s, t, 16, p + 12);
            },
            TableKind::Sym => {
                lemma_step32(s, t, 24, p);
                lemma_step64(s, t, 24, p + 8);
                lemma_step64(s, t, 24, p + 16);
            },
            TableKind::Relr => {
                lemma_step_relr(s, t, p);
            },
            TableKind::Dynamic => {
                lemma_step64(s, t, 16, p);
                lemma_step64(s, t, 16, p + 8);
            },
        }
    }
}

/// Going back over the forward transform of `s`, the record at byte `p`
/// comes out as it is in `s`.
proof fn lemma_record_back(kind: TableKind, s: Seq<u8>, p: int)
    requires
        s.len() % (record_size(kind) as nat) == 0,
        0 <= p,
        p % record_size(kind) == 0,
        p + record_size(kind) <= s.len(),
    ensures
        table_record(kind, table_transformed(kind, s, true), p, false) == s.subrange(
            p,
            p + record_size(kind),
        ),
{
    let t = table_transformed(kind, s, true);
    let size = record_size(kind);
    lemma_record_before(kind, p);
    lemma_carries_back(kind, s, p);
    lemma_carries_back(kind, s, p - size);
    lemma_forward_fields(kind, s, p);
    reveal(table_record);
    let back = table_record(kind, t, p, false);
    let want = s.subrange(p, p + size);
    match kind {
        TableKind::Rela => {
            lemma_step_addend(s, t, p + 16);
            lemma_bytes_of_le_u64(s.subrange(p, p + 8));
            lemma_bytes_of_le_u32(s.subrange(p + 12, p + 16));
            lemma_bytes_of_le_u64(s.subrange(p + 16, p + 24));
            assert(want =~= s.subrange(p, p + 8) + s.subrange(p + 8, p + 12) + s.subrange(
                p + 12,
                p + 16,
            ) + s.subrange(p + 16, p + 24));
        },
        TableKind::Rel => {
            lemma_bytes_of_le_u64(s.subrange(p, p + 8));
            lemma_bytes_of_le_u32(s.subrange(p + 12, p + 16));
            assert(want =~= s.subrange(p, p + 8) + s.subrange(p + 8, p + 12) + s.subrange(
                p + 12,
                p + 16,
            ));
        },
        TableKind::Sym => {
            lemma_bytes_of_le_u32(s.subrange(p, p + 4));
            lemma_bytes_of_le_u64(s.subrange(p + 8, p + 16));
            lemma_bytes_of_le_u64(s.subrange(p + 16, p + 24));
            assert(want =~= s.subrange(p, p + 4) + s.subrange(p + 4, p + 8) + s.subrange(
                p + 8,
                p + 16,
            ) + s.subrange(p + 16, p + 24));
        },
        TableKind::Relr => {
            lemma_step_relr(s, t, p);
            lemma_bytes_of_le_u64(s.subrange(p, p + 8));
        },
        TableKind::Dynamic => {
            lemma_bytes_of_le_u64(s.subrange(p, p + 8));
            lemma_bytes_of_le_u64(s.subrange(p + 8, p + 16));
            assert(want =~= s.subrange(p, p + 8) + s.subrange(p + 8, p + 16));
        },
    }
}

/// The record that byte `k` belongs to starts at `k - k % size` and lies
/// within a table made of whole records.
pub proof fn lemma_record_start(k: int, size: int, len: int)
    requires
        0 < size,
        0 <= k < len,
        len % size == 0,
    ensures
        0 <= k - k % size,
        (k - k % size) % size == 0,
        k - k % size + size <= len,
        0 <= k % size < size,
{
    vstd::arithmetic::div_mod::lemma_fundamental_div_mod(k, size);
    vstd::arithmetic::div_mod::lemma_fundamental_div_mod(len, size);
    vstd::arithmetic::div_mod::lemma_mod_bound(k, size);
    let q = k / size;
    let m = len / size;
    assert(size * q == q * size && size * m == m * size) by (nonlinear_arith);
    assert(0 <= q < m) by (nonlinear_arith)
        requires
            0 < size,
            0 <= k < len,
            k == q * size + k % size,
            0 <= k % size < size,
            len == m * size,
    ;
    lemma_cell(q, 0, size, m);
    assert(q * size + size <= m * size) by (nonlinear_arith)
        requires
            0 <= q < m,
            0 < size,
    ;
}

/// For every kind of table and every byte string: the transform back undoes
/// the transform forward.
pub proof fn lemma_table_round_trip(kind: TableKind, s: Seq<u8>)
    ensures
        table_transformed(kind, table_transformed(kind, s, true), false) == s,
        table_transformed(kind, s, true).len() == s.len(),
{
    let size = record_size(kind);
    let t = table_transformed(kind, s, true);
    if s.len() % (size as nat) == 0 {
        let back = table_transformed(kind, t, false);
        assert forall|k: int| 0 <= k < s.len() implies back[k] == s[k] by {
            let p = k - k % size;
            lemma_record_start(k, size, s.len() as int);
            lemma_record_back(kind, s, p);
        }
        assert(back =~= s);
    }
}

} // verus!
