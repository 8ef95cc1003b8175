//! The fifteen byte categories, the record layout of the numeric ones, the
//! entropy-coder parameters chosen per category, and the byte swap of the
//! integer fields of a category stream.

use crate::shuffle::{lemma_cell, lemma_row_col, lemma_whole_records};
use vstd::prelude::*;

verus! {

/// Bytes that no section and no jump table claims.
pub const CAT_OTHER: u8 = 0;

/// Executable code.
pub const CAT_CODE: u8 = 1;

/// String tables.
pub const CAT_STR: u8 = 2;

/// Two-byte values.
pub const CAT_S2: u8 = 3;

/// Four-byte values.
pub const CAT_S4: u8 = 4;

/// Eight-byte values.
pub const CAT_S8: u8 = 5;

/// Relative relocations, eight bytes each.
pub const CAT_RELR8: u8 = 6;

/// Sixteen-byte values.
pub const CAT_S16: u8 = 7;

/// Relocations without addend, sixteen bytes each.
pub const CAT_REL16: u8 = 8;

/// The dynamic table, sixteen bytes each.
pub const CAT_DYNAMIC16: u8 = 9;

/// Twenty-four-byte records of three words.
pub const CAT_S24: u8 = 10;

/// Relocations with addend, twenty-four bytes each.
pub const CAT_RELA24: u8 = 11;

/// Symbols, twenty-four bytes each.
pub const CAT_SYM24: u8 = 12;

/// Exception-handling data.
pub const CAT_EH: u8 = 13;

/// Jump tables, four bytes each entry.
pub const CAT_JT4: u8 = 14;

/// The number of categories.
pub const CAT_COUNT: usize = 15;

/// The record size of a numeric category; 1 for the categories that are
/// passed through unchanged and for every other number.
pub open spec fn stride_of(cat: int) -> int {
    if cat == CAT_S2 {
        2
    } else if cat == CAT_S4 || cat == CAT_JT4 {
        4
    } else if cat == CAT_S8 || cat == CAT_RELR8 {
        8
    } else if cat == CAT_S16 || cat == CAT_REL16 || cat == CAT_DYNAMIC16 {
        16
    } else if cat == CAT_S24 || cat == CAT_RELA24 || cat == CAT_SYM24 {
        24
    } else {
        1
    }
}

/// Whether the streams of `cat` are byte-swapped and transposed.
pub open spec fn is_numeric(cat: int) -> bool {
    stride_of(cat) > 1
}

/// The record size of category `cat`, 1 where the category has no records.
pub fn category_stride(cat: usize) -> (r: usize)
    ensures
        r == stride_of(cat as int),
{
    if cat == CAT_S2 as usize {
        2
    } else if cat == CAT_S4 as usize || cat == CAT_JT4 as usize {
        4
    } else if cat == CAT_S8 as usize || cat == CAT_RELR8 as usize {
        8
    } else if cat == CAT_S16 as usize || cat == CAT_REL16 as usize || cat
        == CAT_DYNAMIC16 as usize {
        16
    } else if cat == CAT_S24 as usize || cat == CAT_RELA24 as usize || cat == CAT_SYM24 as usize {
        24
    } else {
        1
    }
}

/// The position bits of the entropy coder for category `cat`.
pub open spec fn position_bits(cat: int) -> int {
    if cat == CAT_CODE || cat == CAT_EH || cat == CAT_OTHER {
        2
    } else {
        0
    }
}

/// Chooses the position bits for a category: 2 for code, exception-handling
/// data and unclassified bytes, 0 for every other stream.
pub fn choose_pb(cat: usize) -> (r: u32)
    ensures
        r == position_bits(cat as int),
{
    if cat == CAT_CODE as usize || cat == CAT_EH as usize || cat == CAT_OTHER as usize {
        2
    } else {
        0
    }
}

/// The smallest value that is at least `len`, among `size` and its doublings
/// up to 2^26.
pub open spec fn dict_size_from(len: int, size: int) -> int
    decreases
            (if size < 0x400_0000 {
                0x400_0000 - size
            } else {
                0
            }),
{
    if size < len && 0 < size && size < 0x400_0000 {
        dict_size_from(len, size + size)
    } else {
        size
    }
}

/// The dictionary size for a stream of `len` bytes: the next power of two
/// that is at least `len`, kept within 2^16 and 2^26.
pub open spec fn dict_size(len: int) -> int {
    dict_size_from(len, 0x1_0000)
}

/// Whether `size` is one of the powers of two from 2^16 to 2^26.
pub open spec fn is_dict_power(size: int) -> bool {
    size == 0x1_0000 || size == 0x2_0000 || size == 0x4_0000 || size == 0x8_0000 || size
        == 0x10_0000 || size == 0x20_0000 || size == 0x40_0000 || size == 0x80_0000 || size
        == 0x100_0000 || size == 0x200_0000 || size == 0x400_0000
}

/// Chooses the dictionary size of the entropy coder for a stream of
/// `stream_len` bytes.
pub fn choose_dict_size(stream_len: usize) -> (r: u32)
    ensures
        r == dict_size(stream_len as int),
        is_dict_power(r as int),
        r >= stream_len || r == 0x400_0000,
        r == 0x1_0000 || r / 2 < stream_len,
{
    let mut size: u32 = 0x1_0000;
    while (size as usize) < stream_len && size < 0x400_0000
        invariant
            is_dict_power(size as int),
            dict_size_from(stream_len as int, size as int) == dict_size(stream_len as int),
            size == 0x1_0000 || size / 2 < stream_len,
        decreases 0x400_0000 - size,
    {
        size = size * 2;
    }
    size
}

/// The size of the records whose fields `swapped` reverses, 0 for a
/// category without integer fields.
pub open spec fn swap_record_size(cat: int) -> int {
    if cat == CAT_S2 {
        0
    } else if is_numeric(cat) {
        stride_of(cat)
    } else {
        0
    }
}

/// The offset within a record from which the byte at offset `o` is taken
/// when the integer fields of the record are reversed.
pub open spec fn swap_offset(cat: int, o: int) -> int {
    if cat == CAT_S4 || cat == CAT_JT4 {
        3 - o
    } else if cat == CAT_SYM24 && o < 4 {
        3 - o
    } else if cat == CAT_SYM24 && o < 8 {
        o
    } else if o < 8 {
        7 - o
    } else if o < 16 {
        23 - o
    } else {
        39 - o
    }
}

/// The index from which byte `k` of a stream of `len` bytes is taken.
pub open spec fn swap_source(cat: int, len: int, k: int) -> int {
    let size = swap_record_size(cat);
    if size == 0 || k >= (len / size) * size {
        k
    } else {
        k - k % size + swap_offset(cat, k % size)
    }
}

/// The stream `s` of category `cat` with the byte order of every integer
/// field of every whole record reversed.
pub open spec fn swapped(s: Seq<u8>, cat: int) -> Seq<u8> {
    Seq::new(s.len(), |k: int| s[swap_source(cat, s.len() as int, k)])
}

/// `s` with the `width` bytes from `start` on in reverse order.
pub open spec fn reversed_field(s: Seq<u8>, start: int, width: int) -> Seq<u8> {
    Seq::new(
        s.len(),
        |k: int|
            if start <= k < start + width {
                s[2 * start + width - 1 - k]
            } else {
                s[k]
            },
    )
}

/// Reverses the `width` bytes of `data` that start at `start`.
pub fn reverse_field(data: &mut [u8], start: usize, width: usize)
    requires
        start + width <= old(data).len(),
    ensures
        final(data)@ == reversed_field(old(data)@, start as int, width as int),
{
    let mut e: usize = 0;
    while e < width / 2
        invariant
            e <= width / 2,
            start + width <= data.len(),
            data.len() == old(data).len(),
            forall|k: int|
                0 <= k < data.len() ==> data@[k] == (if (start <= k < start + e) || (start + width
                    - e <= k < start + width) {
                    old(data)@[2 * start + width - 1 - k]
                } else {
                    old(data)@[k]
                }),
        decreases width / 2 - e,
    {
        let a: u8 = data[start + e];
        let b: u8 = data[start + width - 1 - e];
        data[start + e] = b;
        data[start + width - 1 - e] = a;
        e = e + 1;
    }
    proof {
        assert(data@ =~= reversed_field(old(data)@, start as int, width as int));
    }
}

/// The stream after the records below `done` had their fields reversed.
pub open spec fn swapped_upto(s: Seq<u8>, cat: int, done: int) -> Seq<u8> {
    Seq::new(
        s.len(),
        |k: int|
            if k < done * swap_record_size(cat) {
                s[swap_source(cat, s.len() as int, k)]
            } else {
                s[k]
            },
    )
}

/// Reverses the fields of every whole record of a stream of category `cat`.
fn swap_records(data: &mut [u8], cat: usize)
    ensures
        final(data)@ == swapped(old(data)@, cat as int),
{
    let size: usize = if cat == CAT_S2 as usize {
        0
    } else {
        category_stride(cat)
    };
    if size <= 1 {
        proof {
            assert(data@ =~= swapped(old(data)@, cat as int));
        }
        return ;
    }
    let count = data.len() / size;
    proof {
        lemma_whole_records(data.len() as int, size as int);
    }
    let mut i: usize = 0;
    proof {
        assert(0 * swap_record_size(cat as int) == 0);
        assert(data@ =~= swapped_upto(old(data)@, cat as int, 0));
    }
    while i < count
        invariant
            i <= count,
            size == swap_record_size(cat as int),
            size > 1,
            count == data.len() as int / (size as int),
            count * size <= data.len(),
            data.len() == old(data).len(),
            data@ == swapped_upto(old(data)@, cat as int, i as int),
        decreases count - i,
    {
        proof {
            lemma_cell(i as int, 0, size as int, count as int);
            assert((i + 1) * size == i * size + size) by (nonlinear_arith);
            assert(i * size + size <= count * size) by (nonlinear_arith)
                requires
                    i < count,
            ;
        }
        let base = i * size;
        let ghost before = data@;
        if size == 4 {
            reverse_field(data, base, 4);
        } else if cat == CAT_SYM24 as usize {
            reverse_field(data, base, 4);
            reverse_field(data, base + 8, 8);
            reverse_field(data, base + 16, 8);
        } else {
            reverse_field(data, base, 8);
            if size >= 16 {
                reverse_field(data, base + 8, 8);
            }
            if size >= 24 {
                reverse_field(data, base + 16, 8);
            }
        }
        proof {
            let orig = old(data)@;
            let c = cat as int;
            let sz = size as int;
            assert forall|k: int| 0 <= k < data.len() implies data@[k] == swapped_upto(
                orig,
                c,
                i + 1,
            )[k] by {
                if base <= k < base + size {
                    lemma_cell(i as int, k - base, sz, count as int);
                    assert(k % sz == k - base);
                    assert(k < (orig.len() as int / sz) * sz);
                } else {
                    assert(data@[k] == before[k]);
                }
            }
            assert(data@ =~= swapped_upto(orig, c, i + 1));
        }
        i = i + 1;
    }
    proof {
        let orig = old(data)@;
        assert(data@ =~= swapped(orig, cat as int));
    }
}

/// Reverses the byte order of every whole 4-byte word of `data`.
pub fn bswap_u32_array(data: &mut [u8])
    ensures
        final(data)@ == swapped(old(data)@, CAT_S4 as int),
{
    swap_records(data, CAT_S4 as usize);
}

/// Reverses the byte order of every whole 8-byte word of `data`.
pub fn bswap_u64_array(data: &mut [u8])
    ensures
        final(data)@ == swapped(old(data)@, CAT_S8 as int),
{
    swap_records(data, CAT_S8 as usize);
}

/// Reverses the byte order of every integer field of a category stream, in
/// place: 4-byte words for S4 and JT4; 8-byte words for S8, RELR8, and for the
/// two or three words of each 16- or 24-byte record; for SYM24 the 4-byte name
/// and the 8-byte value and size, but not the four bytes between them. Bytes
/// behind the last whole record, and the other categories, are left alone.
pub fn bswap_cat(data: &mut [u8], cat: usize)
    ensures
        final(data)@ == swapped(old(data)@, cat as int),
{
    if cat == CAT_S4 as usize || cat == CAT_JT4 as usize {
        bswap_u32_array(data);
        proof {
            assert(swapped(old(data)@, CAT_S4 as int) =~= swapped(old(data)@, cat as int));
        }
    } else if cat == CAT_S8 as usize || cat == CAT_RELR8 as usize {
        bswap_u64_array(data);
        proof {
            assert(swapped(old(data)@, CAT_S8 as int) =~= swapped(old(data)@, cat as int));
        }
    } else {
        swap_records(data, cat);
    }
}

/// Reversing the fields twice gives the stream back.
pub proof fn lemma_swapped_twice(s: Seq<u8>, cat: int)
    ensures
        swapped(swapped(s, cat), cat) == s,
        swapped(s, cat).len() == s.len(),
{
    let size = swap_record_size(cat);
    let t = swapped(s, cat);
    let len = s.len() as int;
    assert forall|k: int| 0 <= k < len implies swapped(t, cat)[k] == s[k] by {
        if size != 0 && k < (len / size) * size {
            lemma_whole_records(len, size);
            lemma_row_col(k, size, len / size);
            let o = k % size;
            let q = k / size;
            let o2 = swap_offset(cat, o);
            lemma_cell(q, o2, size, len / size);
            assert(swap_offset(cat, o2) == o);
        }
    }
    assert(swapped(t, cat) =~= s);
}

} // verus!
