//! Rebasing of 32-bit relative fields.
//!
//! A field holds a signed 32-bit displacement that is relative to some
//! virtual address. Compression replaces it by the address it points to,
//! taken relative to the image base; decompression puts the displacement
//! back. The rewritten value is stored little- or big-endian, as the outer
//! mode says; the displacement is always little-endian.

use crate::bytes::{
    lemma_be_u32_of_bytes, lemma_le_u32_of_bytes, lemma_overwrite_read, load_u32, load_u32_be,
    overwrite, store_u32, store_u32_be, u32_at, u32_be_at, u32_be_bytes, u32_le_bytes,
};
use crate::tables::{wadd64, wsub64};
use vstd::prelude::*;

verus! {

/// A 32-bit field of the image and the virtual address that its value is
/// relative to.
#[derive(Clone, Copy, Debug, PartialEq, Eq, Structural)]
pub struct FieldPatch {
    /// The file offset of the field.
    pub fo: usize,
    /// The virtual address that the displacement is added to.
    pub va: u64,
}

/// The 32-bit value `v`, read as signed, as a 64-bit two's complement
/// number.
pub open spec fn sign_extended(v: u32) -> u64 {
    if v < 0x8000_0000 {
        v as u64
    } else {
        (v + 0xFFFF_FFFF_0000_0000) as u64
    }
}

/// The low 32 bits of `x`.
pub open spec fn low32(x: u64) -> u32 {
    (x % 0x1_0000_0000) as u32
}

/// The address that the displacement `cur` at `va` points to, relative to
/// `base`, modulo 2^64.
pub open spec fn absolute_of(va: u64, cur: u32, base: u64) -> u64 {
    wsub64(wadd64(va, sign_extended(cur)), base)
}

/// The displacement at `va` that points to the stored address `stored`.
pub open spec fn relative_of(va: u64, stored: u32, base: u64) -> u32 {
    low32(wsub64(wadd64(stored as u64, base), va))
}

/// The four bytes of `v` in the byte order of the outer mode.
pub open spec fn mode_bytes(v: u32, use_be: bool) -> Seq<u8> {
    if use_be {
        u32_be_bytes(v)
    } else {
        u32_le_bytes(v)
    }
}

/// The field at `p` read in the byte order of the outer mode.
pub open spec fn mode_at(img: Seq<u8>, p: int, use_be: bool) -> u32 {
    if use_be {
        u32_be_at(img, p)
    } else {
        u32_at(img, p)
    }
}

/// The image after one field was rebased. Going forward with `guarded` set,
/// a field whose address does not fit 32 bits is left as it is.
pub open spec fn rebased_field(
    img: Seq<u8>,
    patch: FieldPatch,
    base: u64,
    forward: bool,
    use_be: bool,
    guarded: bool,
) -> Seq<u8> {
    let fo = patch.fo as int;
    if forward {
        let abs = absolute_of(patch.va, u32_at(img, fo), base);
        if guarded && abs > 0xFFFF_FFFF {
            img
        } else {
            overwrite(img, fo, mode_bytes(low32(abs), use_be))
        }
    } else {
        overwrite(
            img,
            fo,
            u32_le_bytes(relative_of(patch.va, mode_at(img, fo, use_be), base)),
        )
    }
}

/// The image after the first `n` fields of `patches` were rebased, one
/// after the other.
pub open spec fn rebased(
    img: Seq<u8>,
    patches: Seq<FieldPatch>,
    n: int,
    base: u64,
    forward: bool,
    use_be: bool,
    guarded: bool,
) -> Seq<u8>
    decreases n,
{
    if n <= 0 {
        img
    } else {
        rebased_field(
            rebased(img, patches, n - 1, base, forward, use_be, guarded),
            patches[n - 1],
            base,
            forward,
            use_be,
            guarded,
        )
    }
}

/// Whether every field of `patches` lies within an image of `len` bytes.
pub open spec fn patches_in_image(patches: Seq<FieldPatch>, len: int) -> bool {
    forall|i: int| 0 <= i < patches.len() ==> (#[trigger] patches[i]).fo + 4 <= len
}

/// Rebasing keeps the length of the image.
pub proof fn lemma_rebased_len(
    img: Seq<u8>,
    patches: Seq<FieldPatch>,
    n: int,
    base: u64,
    forward: bool,
    use_be: bool,
    guarded: bool,
)
    ensures
        rebased(img, patches, n, base, forward, use_be, guarded).len() == img.len(),
    decreases n,
{
    if n > 0 {
        lemma_rebased_len(img, patches, n - 1, base, forward, use_be, guarded);
    }
}

/// Sign-extends a 32-bit value.
pub fn sign_extend(v: u32) -> (r: u64)
    ensures
        r == sign_extended(v),
{
    if v < 0x8000_0000 {
        v as u64
    } else {
        v as u64 + 0xFFFF_FFFF_0000_0000
    }
}

/// Rebases one field of the image in place.
pub fn rebase_field(
    img: &mut [u8],
    patch: FieldPatch,
    base: u64,
    is_compress: bool,
    use_be: bool,
    guarded: bool,
)
    requires
        patch.fo + 4 <= old(img).len(),
    ensures
        final(img)@ == rebased_field(old(img)@, patch, base, is_compress, use_be, guarded),
        final(img)@.len() == old(img)@.len(),
{
    let fo = patch.fo;
    if is_compress {
        let cur = load_u32(img, fo);
        let abs = patch.va.wrapping_add(sign_extend(cur)).wrapping_sub(base);
        if guarded && abs > 0xFFFF_FFFF {
            return ;
        }
        let abs32: u32 = (abs % 0x1_0000_0000) as u32;
        if use_be {
            store_u32_be(img, fo, abs32);
        } else {
            store_u32(img, fo, abs32);
        }
    } else {
        let stored = if use_be {
            load_u32_be(img, fo)
        } else {
            load_u32(img, fo)
        };
        let rel = (stored as u64).wrapping_add(base).wrapping_sub(patch.va);
        store_u32(img, fo, (rel % 0x1_0000_0000) as u32);
    }
}

/// Rebases the fields of `patches` in place, in their order.
pub fn rebase_fields(
    img: &mut [u8],
    patches: &Vec<FieldPatch>,
    base: u64,
    is_compress: bool,
    use_be: bool,
    guarded: bool,
)
    requires
        patches_in_image(patches@, old(img).len() as int),
    ensures
        final(img)@ == rebased(
            old(img)@,
            patches@,
            patches@.len() as int,
            base,
            is_compress,
            use_be,
            guarded,
        ),
        final(img)@.len() == old(img)@.len(),
{
    let mut i: usize = 0;
    while i < patches.len()
        invariant
            i <= patches.len(),
            img.len() == old(img).len(),
            patches_in_image(patches@, img.len() as int),
            img@ == rebased(old(img)@, patches@, i as int, base, is_compress, use_be, guarded),
        decreases patches.len() - i,
    {
        rebase_field(img, patches[i], base, is_compress, use_be, guarded);
        i = i + 1;
    }
}

/// The displacement comes back from the address it was replaced by.
pub proof fn lemma_relative_of_absolute(va: u64, cur: u32, base: u64)
    ensures
        relative_of(va, low32(absolute_of(va, cur, base)), base) == cur,
{
    let m = 0x1_0000_0000int;
    let w = 0x1_0000_0000_0000_0000int;
    let s = sign_extended(cur);
    let a = wadd64(va, s);
    let abs = wsub64(a, base);
    let st = low32(abs);
    let b = wadd64(st as u64, base);
    let r = wsub64(b, va);
    let e1: int = if cur < 0x8000_0000 { 0 } else { 1 };
    let k1: int = if va + s > u64::MAX { 1 } else { 0 };
    let k2: int = if a - base < 0 { 1 } else { 0 };
    let k3: int = if st + base > u64::MAX { 1 } else { 0 };
    let k4: int = if b - va < 0 { 1 } else { 0 };
    let q = abs as int / m;
    assert(s == cur + e1 * (w - m));
    assert(a == va + s - k1 * w);
    assert(abs == a - base + k2 * w);
    assert(st == abs - q * m) by {
        vstd::arithmetic::div_mod::lemma_fundamental_div_mod(abs as int, m);
    }
    assert(b == st + base - k3 * w);
    assert(r == b - va + k4 * w);
    let t = e1 * (m - 1) - q + (k2 - k1 + k4 - k3) * m;
    assert(r == t * m + cur) by {
        assert(w == m * m);
        assert(e1 * (w - m) == (e1 * (m - 1)) * m) by (nonlinear_arith)
            requires
                w == m * m,
        ;
        assert((k2 - k1 + k4 - k3) * w == ((k2 - k1 + k4 - k3) * m) * m) by (nonlinear_arith)
            requires
                w == m * m,
        ;
        assert(t * m == (e1 * (m - 1)) * m - q * m + ((k2 - k1 + k4 - k3) * m) * m)
            by (nonlinear_arith)
            requires
                t == e1 * (m - 1) - q + (k2 - k1 + k4 - k3) * m,
        ;
    }
    vstd::arithmetic::div_mod::lemma_fundamental_div_mod_converse(r as int, m, t, cur as int);
}

/// What is stored for a displacement is the displacement plus the address
/// it is relative to, minus the image base, all modulo 2^32.
pub proof fn lemma_stored_modulo_32(va: u64, cur: u32, base: u64)
    ensures
        low32(absolute_of(va, cur, base)) == vstd::wrapping::u32_specs::wrapping_sub(
            vstd::wrapping::u32_specs::wrapping_add(cur, low32(va)),
            low32(base),
        ),
{
    let m = 0x1_0000_0000int;
    let w = 0x1_0000_0000_0000_0000int;
    let s = sign_extended(cur);
    let a = wadd64(va, s);
    let abs = wsub64(a, base);
    let va32 = low32(va);
    let base32 = low32(base);
    let x = vstd::wrapping::u32_specs::wrapping_add(cur, va32);
    let y = vstd::wrapping::u32_specs::wrapping_sub(x, base32);
    let e1: int = if cur < 0x8000_0000 { 0 } else { 1 };
    let k1: int = if va + s > u64::MAX { 1 } else { 0 };
    let k2: int = if a - base < 0 { 1 } else { 0 };
    let j1: int = if cur + va32 > u32::MAX { 1 } else { 0 };
    let j2: int = if x - base32 < 0 { 1 } else { 0 };
    let qv = va as int / m;
    let qb = base as int / m;
    assert(va == qv * m + va32 && base == qb * m + base32) by {
        vstd::arithmetic::div_mod::lemma_fundamental_div_mod(va as int, m);
        vstd::arithmetic::div_mod::lemma_fundamental_div_mod(base as int, m);
    }
    assert(w == m * m);
    assert(s == cur + e1 * (w - m));
    assert(a == va + s - k1 * w);
    assert(abs == a - base + k2 * w);
    assert(x == cur + va32 - j1 * m);
    assert(y == x - base32 + j2 * m);
    let t = qv - qb + e1 * (m - 1) + (k2 - k1) * m + j1 - j2;
    assert(abs == t * m + y) by {
        assert(e1 * (w - m) == (e1 * (m - 1)) * m) by (nonlinear_arith)
            requires
                w == m * m,
        ;
        assert((k2 - k1) * w == ((k2 - k1) * m) * m) by (nonlinear_arith)
            requires
                w == m * m,
        ;
        assert(t * m == qv * m - qb * m + (e1 * (m - 1)) * m + ((k2 - k1) * m) * m + j1 * m - j2
            * m) by (nonlinear_arith)
            requires
                t == qv - qb + e1 * (m - 1) + (k2 - k1) * m + j1 - j2,
        ;
    }
    vstd::arithmetic::div_mod::lemma_fundamental_div_mod_converse(abs as int, m, t, y as int);
}

/// Going back over a field that was rebased forward restores it, when the
/// forward step was not held back by the guard.
pub proof fn lemma_rebased_field_back(
    img: Seq<u8>,
    patch: FieldPatch,
    base: u64,
    use_be: bool,
    guarded: bool,
)
    requires
        patch.fo + 4 <= img.len(),
        !guarded || absolute_of(patch.va, u32_at(img, patch.fo as int), base) <= 0xFFFF_FFFF,
    ensures
        rebased_field(
            rebased_field(img, patch, base, true, use_be, guarded),
            patch,
            base,
            false,
            use_be,
            guarded,
        ) == img,
{
    let fo = patch.fo as int;
    let cur = u32_at(img, fo);
    let st = low32(absolute_of(patch.va, cur, base));
    let mid = rebased_field(img, patch, base, true, use_be, guarded);
    lemma_le_u32_of_bytes(st);
    lemma_be_u32_of_bytes(st);
    lemma_overwrite_read(img, fo, mode_bytes(st, use_be));
    assert(mode_at(mid, fo, use_be) == st);
    lemma_relative_of_absolute(patch.va, cur, base);
    crate::bytes::lemma_bytes_of_le_u32(img.subrange(fo, fo + 4));
    lemma_le_u32_of_bytes(cur);
    assert(overwrite(mid, fo, u32_le_bytes(cur)) =~= img);
}

} // verus!
